//! The top-level archive format.
//!
//! On disk an archive is the magic `AGAR`, two version words, one unused
//! word, a file table, a directory table, and a trailing data region.
//! Each file record stores its path, its payload size and its payload
//! offset relative to the end of the header; the byte position of each
//! record is kept so that an injection can patch the size and offset
//! fields in place.

use vstd::prelude::*;
use vstd::utf8::{decode_utf8, encode_utf8, valid_utf8};
use crate::Error;
use vstd::bytes::spec_u64_to_le_bytes;
use crate::bytes::{le32_at, le64_at, overwrite, read_u32_le, read_u64_le, write_bytes_at};
use crate::text::string_from_utf8;

verus! {

/// Mathematical model of one file record.
pub ghost struct SpecFileEntry {
    pub entry_offset: int,
    pub path: Seq<char>,
    pub size: int,
    pub offset: int,
}

/// Mathematical model of one subfile listing of a directory record.
pub ghost struct SpecSubfileEntry {
    pub entry_offset: int,
    pub name: Seq<char>,
    pub is_directory: bool,
}

/// Mathematical model of one directory record.
pub ghost struct SpecDirEntry {
    pub entry_offset: int,
    pub path: Seq<char>,
    pub subfiles: Seq<SpecSubfileEntry>,
}

/// Mathematical model of a parsed archive header.
pub ghost struct SpecHeader {
    pub version: (u32, u32),
    pub files: Seq<SpecFileEntry>,
    pub dirs: Seq<SpecDirEntry>,
    pub size: int,
}

/// One file record: where its fixed-size tail sits in the file, its path,
/// and the size and offset of its payload in the data region.
pub struct FileEntry {
    pub entry_offset: u64,
    pub path: String,
    pub size: u64,
    pub offset: u64,
}

/// One subfile listing of a directory record.
pub struct SubfileEntry {
    pub entry_offset: u64,
    pub name: String,
    pub is_directory: bool,
}

/// One directory record: a flat listing of child names.
pub struct DirEntry {
    pub entry_offset: u64,
    pub path: String,
    pub subfiles: Vec<SubfileEntry>,
}

/// A parsed archive header. `size` is the byte length of the header
/// region: the offset at which the data region begins.
pub struct Header {
    pub version: [u32; 2],
    pub files: Vec<FileEntry>,
    pub dirs: Vec<DirEntry>,
    pub size: u64,
}

impl DeepView for FileEntry {
    type V = SpecFileEntry;

    open spec fn deep_view(&self) -> SpecFileEntry {
        self.view()
    }
}

impl View for FileEntry {
    type V = SpecFileEntry;

    open spec fn view(&self) -> SpecFileEntry {
        SpecFileEntry {
            entry_offset: self.entry_offset as int,
            path: self.path@,
            size: self.size as int,
            offset: self.offset as int,
        }
    }
}

impl DeepView for SubfileEntry {
    type V = SpecSubfileEntry;

    open spec fn deep_view(&self) -> SpecSubfileEntry {
        self.view()
    }
}

impl View for SubfileEntry {
    type V = SpecSubfileEntry;

    open spec fn view(&self) -> SpecSubfileEntry {
        SpecSubfileEntry {
            entry_offset: self.entry_offset as int,
            name: self.name@,
            is_directory: self.is_directory,
        }
    }
}

impl DeepView for DirEntry {
    type V = SpecDirEntry;

    open spec fn deep_view(&self) -> SpecDirEntry {
        self.view()
    }
}

impl View for DirEntry {
    type V = SpecDirEntry;

    open spec fn view(&self) -> SpecDirEntry {
        SpecDirEntry {
            entry_offset: self.entry_offset as int,
            path: self.path@,
            subfiles: self.subfiles.deep_view(),
        }
    }
}

impl View for Header {
    type V = SpecHeader;

    open spec fn view(&self) -> SpecHeader {
        SpecHeader {
            version: (self.version[0], self.version[1]),
            files: self.files.deep_view(),
            dirs: self.dirs.deep_view(),
            size: self.size as int,
        }
    }
}

/// The magic bytes `AGAR` that an archive must begin with.
pub open spec fn magic_bytes() -> Seq<u8> {
    seq![0x41u8, 0x47u8, 0x41u8, 0x52u8]
}

/// Parses `n` file records starting at `pos`: for each, a 32-bit path
/// length, the path (which must be valid UTF-8), a 64-bit size and a
/// 64-bit offset. Yields the records and the position after them.
pub open spec fn spec_parse_files(data: Seq<u8>, pos: int, n: nat) -> Result<
    (Seq<SpecFileEntry>, int),
    Error,
>
    decreases n,
{
    if n == 0 {
        Ok((Seq::empty(), pos))
    } else if pos + 4 > data.len() {
        Err(Error::UnexpectedEnd)
    } else {
        let plen = le32_at(data, pos) as int;
        if pos + 20 + plen > data.len() {
            Err(Error::UnexpectedEnd)
        } else {
            let pb = data.subrange(pos + 4, pos + 4 + plen);
            if !valid_utf8(pb) {
                Err(Error::InvalidUtf8)
            } else {
                let e = SpecFileEntry {
                    entry_offset: pos,
                    path: decode_utf8(pb),
                    size: le64_at(data, pos + 4 + plen) as int,
                    offset: le64_at(data, pos + 12 + plen) as int,
                };
                match spec_parse_files(data, pos + 20 + plen, (n - 1) as nat) {
                    Ok((rest, end)) => Ok((seq![e] + rest, end)),
                    Err(err) => Err(err),
                }
            }
        }
    }
}

/// Parses `n` subfile listings starting at `pos`: for each, a 32-bit name
/// length, the name (valid UTF-8), and one byte that is nonzero for a
/// directory.
pub open spec fn spec_parse_subfiles(data: Seq<u8>, pos: int, n: nat) -> Result<
    (Seq<SpecSubfileEntry>, int),
    Error,
>
    decreases n,
{
    if n == 0 {
        Ok((Seq::empty(), pos))
    } else if pos + 4 > data.len() {
        Err(Error::UnexpectedEnd)
    } else {
        let nlen = le32_at(data, pos) as int;
        if pos + 5 + nlen > data.len() {
            Err(Error::UnexpectedEnd)
        } else {
            let nb = data.subrange(pos + 4, pos + 4 + nlen);
            if !valid_utf8(nb) {
                Err(Error::InvalidUtf8)
            } else {
                let e = SpecSubfileEntry {
                    entry_offset: pos,
                    name: decode_utf8(nb),
                    is_directory: data[pos + 4 + nlen] != 0,
                };
                match spec_parse_subfiles(data, pos + 5 + nlen, (n - 1) as nat) {
                    Ok((rest, end)) => Ok((seq![e] + rest, end)),
                    Err(err) => Err(err),
                }
            }
        }
    }
}

/// Parses `n` directory records starting at `pos`: for each, a 32-bit
/// path length, the path (valid UTF-8), a 32-bit subfile count and that
/// many subfile listings.
pub open spec fn spec_parse_dirs(data: Seq<u8>, pos: int, n: nat) -> Result<
    (Seq<SpecDirEntry>, int),
    Error,
>
    decreases n,
{
    if n == 0 {
        Ok((Seq::empty(), pos))
    } else if pos + 4 > data.len() {
        Err(Error::UnexpectedEnd)
    } else {
        let plen = le32_at(data, pos) as int;
        if pos + 8 + plen > data.len() {
            Err(Error::UnexpectedEnd)
        } else {
            let pb = data.subrange(pos + 4, pos + 4 + plen);
            if !valid_utf8(pb) {
                Err(Error::InvalidUtf8)
            } else {
                let count = le32_at(data, pos + 4 + plen) as nat;
                match spec_parse_subfiles(data, pos + 8 + plen, count) {
                    Err(err) => Err(err),
                    Ok((subfiles, mid)) => {
                        let e = SpecDirEntry {
                            entry_offset: pos,
                            path: decode_utf8(pb),
                            subfiles: subfiles,
                        };
                        match spec_parse_dirs(data, mid, (n - 1) as nat) {
                            Ok((rest, end)) => Ok((seq![e] + rest, end)),
                            Err(err) => Err(err),
                        }
                    },
                }
            }
        }
    }
}

/// What parsing an archive header yields: sixteen bytes of magic,
/// version and padding, the file table, the directory table, and as
/// `size` the total number of bytes the parse consumed.
pub open spec fn spec_parse_header(data: Seq<u8>) -> Result<SpecHeader, Error> {
    if data.len() < 16 {
        Err(Error::UnexpectedEnd)
    } else if data.subrange(0, 4) != magic_bytes() {
        Err(Error::MalformedMagic)
    } else if data.len() < 20 {
        Err(Error::UnexpectedEnd)
    } else {
        match spec_parse_files(data, 20, le32_at(data, 16) as nat) {
            Err(err) => Err(err),
            Ok((files, pos1)) => {
                if pos1 + 4 > data.len() {
                    Err(Error::UnexpectedEnd)
                } else {
                    match spec_parse_dirs(data, pos1 + 4, le32_at(data, pos1) as nat) {
                        Err(err) => Err(err),
                        Ok((dirs, end)) => Ok(
                            SpecHeader {
                                version: (le32_at(data, 4), le32_at(data, 8)),
                                files: files,
                                dirs: dirs,
                                size: end,
                            },
                        ),
                    }
                }
            },
        }
    }
}

impl Header {
    /// Parses an archive header from the start of the given bytes.
    ///
    /// Succeeds if and only if the bytes begin with the magic, every
    /// record is complete and every path is valid UTF-8; the parsed
    /// header then mirrors the bytes field by field, and its `size` is
    /// the number of bytes the parse consumed.
    #[verifier::loop_isolation(false)]
    #[verifier::rlimit(80)]
    pub fn read_from(data: &[u8]) -> (r: Result<Header, Error>)
        ensures
            match spec_parse_header(data@) {
                Ok(h) => r matches Ok(hdr) && hdr@ == h,
                Err(e) => r matches Err(e2) && e2 == e,
            },
    {
        let n = data.len();
        if n < 16 {
            return Err(Error::UnexpectedEnd);
        }
        if data[0] != 0x41 || data[1] != 0x47 || data[2] != 0x41 || data[3] != 0x52 {
            proof {
                assert(data@.subrange(0, 4) != magic_bytes());
            }
            return Err(Error::MalformedMagic);
        }
        proof {
            assert(data@.subrange(0, 4) =~= magic_bytes());
        }
        let version = [read_u32_le(data, 4), read_u32_le(data, 8)];
        if n < 20 {
            return Err(Error::UnexpectedEnd);
        }
        let fcount = read_u32_le(data, 16);
        let ghost gf = fcount as nat;

        let mut files: Vec<FileEntry> = Vec::new();
        let mut pos: usize = 20;
        for i in 0..fcount
            invariant
                i <= fcount,
                pos <= n,
                files@.len() == i,
                spec_parse_files(data@, 20, gf) == (match spec_parse_files(
                    data@,
                    pos as int,
                    (gf - i) as nat,
                ) {
                    Ok((rest, end)) => Ok::<(Seq<SpecFileEntry>, int), Error>(
                        (files.deep_view() + rest, end),
                    ),
                    Err(e) => Err::<(Seq<SpecFileEntry>, int), Error>(e),
                }),
        {
            let ghost fpos = pos as int;
            let ghost k = (gf - i) as nat;
            if n - pos < 4 {
                return Err(Error::UnexpectedEnd);
            }
            let plen32 = read_u32_le(data, pos);
            let plen = plen32 as usize;
            if ((n - pos - 4) as u64) < (plen as u64) + 16 {
                return Err(Error::UnexpectedEnd);
            }
            let pb = vstd::slice::slice_to_vec(
                vstd::slice::slice_subrange(data, pos + 4, pos + 4 + plen),
            );
            let path = match string_from_utf8(pb) {
                Some(s) => s,
                None => {
                    return Err(Error::InvalidUtf8);
                },
            };
            let size = read_u64_le(data, pos + 4 + plen);
            let offset = read_u64_le(data, pos + 12 + plen);
            let ghost old_files = files.deep_view();
            let entry = FileEntry { entry_offset: pos as u64, path, size, offset };
            files.push(entry);
            pos = pos + 20 + plen;
            proof {
                let e_spec = SpecFileEntry {
                    entry_offset: fpos,
                    path: decode_utf8(data@.subrange(fpos + 4, fpos + 4 + plen as int)),
                    size: le64_at(data@, fpos + 4 + plen as int) as int,
                    offset: le64_at(data@, fpos + 12 + plen as int) as int,
                };
                assert(entry@ == e_spec);
                assert(files.deep_view() =~= old_files.push(e_spec));
                match spec_parse_files(data@, pos as int, (gf - i - 1) as nat) {
                    Ok((rest, end)) => {
                        assert(old_files.push(e_spec) + rest =~= old_files + (seq![e_spec]
                            + rest));
                    },
                    Err(_) => {},
                }
            }
        }
        let ghost gfiles = files.deep_view();
        proof {
            assert(gfiles + Seq::<SpecFileEntry>::empty() =~= gfiles);
        }
        let ghost fend = pos as int;

        if n - pos < 4 {
            return Err(Error::UnexpectedEnd);
        }
        let dcount = read_u32_le(data, pos);
        let ghost gd = dcount as nat;
        let ghost dstart = pos + 4;
        pos = pos + 4;

        let mut dirs: Vec<DirEntry> = Vec::new();
        for i in 0..dcount
            invariant
                i <= dcount,
                pos <= n,
                dirs@.len() == i,
                spec_parse_dirs(data@, dstart, gd) == (match spec_parse_dirs(
                    data@,
                    pos as int,
                    (gd - i) as nat,
                ) {
                    Ok((rest, end)) => Ok::<(Seq<SpecDirEntry>, int), Error>(
                        (dirs.deep_view() + rest, end),
                    ),
                    Err(e) => Err::<(Seq<SpecDirEntry>, int), Error>(e),
                }),
        {
            let ghost dpos = pos as int;
            if n - pos < 4 {
                return Err(Error::UnexpectedEnd);
            }
            let plen32 = read_u32_le(data, pos);
            let plen = plen32 as usize;
            if ((n - pos - 4) as u64) < (plen as u64) + 4 {
                return Err(Error::UnexpectedEnd);
            }
            let pb = vstd::slice::slice_to_vec(
                vstd::slice::slice_subrange(data, pos + 4, pos + 4 + plen),
            );
            let path = match string_from_utf8(pb) {
                Some(s) => s,
                None => {
                    return Err(Error::InvalidUtf8);
                },
            };
            let scount = read_u32_le(data, pos + 4 + plen);
            let ghost gs = scount as nat;
            let entry_offset = pos as u64;
            pos = pos + 8 + plen;
            let ghost sstart = pos as int;

            let mut subfiles: Vec<SubfileEntry> = Vec::new();
            for k in 0..scount
                invariant
                    k <= scount,
                    pos <= n,
                    subfiles@.len() == k,
                    spec_parse_subfiles(data@, sstart, gs) == (match spec_parse_subfiles(
                        data@,
                        pos as int,
                        (gs - k) as nat,
                    ) {
                        Ok((rest, end)) => Ok::<(Seq<SpecSubfileEntry>, int), Error>(
                            (subfiles.deep_view() + rest, end),
                        ),
                        Err(e) => Err::<(Seq<SpecSubfileEntry>, int), Error>(e),
                    }),
            {
                let ghost spos = pos as int;
                if n - pos < 4 {
                    return Err(Error::UnexpectedEnd);
                }
                let nlen32 = read_u32_le(data, pos);
                let nlen = nlen32 as usize;
                if ((n - pos - 4) as u64) < (nlen as u64) + 1 {
                    return Err(Error::UnexpectedEnd);
                }
                let nb = vstd::slice::slice_to_vec(
                    vstd::slice::slice_subrange(data, pos + 4, pos + 4 + nlen),
                );
                let name = match string_from_utf8(nb) {
                    Some(s) => s,
                    None => {
                        return Err(Error::InvalidUtf8);
                    },
                };
                let flag = data[pos + 4 + nlen];
                let ghost old_subs = subfiles.deep_view();
                let sub = SubfileEntry {
                    entry_offset: pos as u64,
                    name,
                    is_directory: flag != 0,
                };
                subfiles.push(sub);
                pos = pos + 5 + nlen;
                proof {
                    let e_spec = SpecSubfileEntry {
                        entry_offset: spos,
                        name: decode_utf8(data@.subrange(spos + 4, spos + 4 + nlen as int)),
                        is_directory: data@[spos + 4 + nlen as int] != 0,
                    };
                    assert(sub@ == e_spec);
                    assert(subfiles.deep_view() =~= old_subs.push(e_spec));
                    match spec_parse_subfiles(data@, pos as int, (gs - k - 1) as nat) {
                        Ok((rest, end)) => {
                            assert(old_subs.push(e_spec) + rest =~= old_subs + (seq![e_spec]
                                + rest));
                        },
                        Err(_) => {},
                    }
                }
            }
            proof {
                assert(subfiles.deep_view() + Seq::<SpecSubfileEntry>::empty()
                    =~= subfiles.deep_view());
            }
            let ghost old_dirs = dirs.deep_view();
            let ghost gsubs = subfiles.deep_view();
            let entry = DirEntry { entry_offset, path, subfiles };
            dirs.push(entry);
            proof {
                let e_spec = SpecDirEntry {
                    entry_offset: dpos,
                    path: decode_utf8(data@.subrange(dpos + 4, dpos + 4 + plen as int)),
                    subfiles: gsubs,
                };
                assert(entry@ == e_spec);
                assert(dirs.deep_view() =~= old_dirs.push(e_spec));
                match spec_parse_dirs(data@, pos as int, (gd - i - 1) as nat) {
                    Ok((rest, end)) => {
                        assert(old_dirs.push(e_spec) + rest =~= old_dirs + (seq![e_spec]
                            + rest));
                    },
                    Err(_) => {},
                }
            }
        }
        proof {
            assert(dirs.deep_view() + Seq::<SpecDirEntry>::empty() =~= dirs.deep_view());
        }

        let hdr = Header { version, files, dirs, size: pos as u64 };
        proof {
            assert(hdr@ == spec_parse_header(data@)->Ok_0);
        }
        Ok(hdr)
    }
}

/// Mathematical model of an open archive: its parsed header and the
/// whole backing file's bytes.
pub ghost struct SpecWad {
    pub header: SpecHeader,
    pub data: Seq<u8>,
}

/// An open archive: the parsed header and the backing file's bytes.
/// Reads slice the data region; injections patch the header fields and
/// the data region in place, relocating a grown payload to the end.
pub struct Wad {
    header: Header,
    data: Vec<u8>,
}

impl View for Wad {
    type V = SpecWad;

    closed spec fn view(&self) -> SpecWad {
        SpecWad { header: self.header@, data: self.data@ }
    }
}

/// Where a file record's 64-bit size field sits: just after the record's
/// path-length field and path.
pub open spec fn size_field_pos(e: SpecFileEntry) -> int {
    e.entry_offset + 4 + encode_utf8(e.path).len()
}

/// One file record agrees with the archive bytes: its fixed-size tail
/// lies inside the header region, its payload lies inside the file, and
/// the size and offset stored on disk mirror the in-memory record.
pub open spec fn file_entry_wf(e: SpecFileEntry, h: SpecHeader, data: Seq<u8>) -> bool {
    &&& 0 <= e.entry_offset
    &&& size_field_pos(e) + 16 <= h.size
    &&& 0 <= e.size <= u64::MAX
    &&& 0 <= e.offset <= u64::MAX
    &&& h.size + e.offset + e.size <= data.len()
    &&& le64_at(data, size_field_pos(e)) as int == e.size
    &&& le64_at(data, size_field_pos(e) + 8) as int == e.offset
}

/// The archive invariant: the header region is a prefix of the file,
/// every file record agrees with the bytes, and the records' tails are
/// pairwise disjoint, in table order.
pub open spec fn header_wf(h: SpecHeader, data: Seq<u8>) -> bool {
    &&& 0 <= h.size <= data.len()
    &&& forall|i: int| 0 <= i < h.files.len() ==> file_entry_wf(#[trigger] h.files[i], h, data)
    &&& forall|i: int, j: int|
        0 <= i < j < h.files.len() ==> size_field_pos(#[trigger] h.files[i]) + 16
            <= (#[trigger] h.files[j]).entry_offset
}

/// Every payload named by the file table lies within the file.
pub open spec fn ranges_ok(h: SpecHeader, data: Seq<u8>) -> bool {
    forall|i: int|
        0 <= i < h.files.len() ==> h.size + (#[trigger] h.files[i]).offset + h.files[i].size
            <= data.len()
}

/// What a successful parse says of each file record, relative to the
/// bytes it was parsed from.
pub open spec fn parsed_file_entry(e: SpecFileEntry, data: Seq<u8>) -> bool {
    &&& 0 <= e.entry_offset
    &&& size_field_pos(e) + 16 <= data.len()
    &&& data.subrange(e.entry_offset + 4, size_field_pos(e)) == encode_utf8(e.path)
    &&& e.size == le64_at(data, size_field_pos(e)) as int
    &&& e.offset == le64_at(data, size_field_pos(e) + 8) as int
    &&& 0 <= e.size <= u64::MAX
    &&& 0 <= e.offset <= u64::MAX
}

/// A successful file-table parse runs forward through the bytes and
/// yields records that mirror them, each record's tail before the next
/// record.
pub proof fn lemma_parse_files_wf(data: Seq<u8>, pos: int, n: nat)
    requires
        0 <= pos <= data.len(),
        spec_parse_files(data, pos, n) is Ok,
    ensures
        ({
            let (files, end) = spec_parse_files(data, pos, n)->Ok_0;
            &&& files.len() == n
            &&& pos <= end <= data.len()
            &&& forall|i: int|
                0 <= i < files.len() ==> parsed_file_entry(#[trigger] files[i], data) && pos
                    <= files[i].entry_offset && size_field_pos(files[i]) + 16 <= end
            &&& forall|i: int, j: int|
                0 <= i < j < files.len() ==> size_field_pos(#[trigger] files[i]) + 16 <= (
                #[trigger] files[j]).entry_offset
        }),
    decreases n,
{
    broadcast use vstd::utf8::decode_utf8_encode_utf8;

    if n > 0 {
        let plen = le32_at(data, pos) as int;
        let pos2 = pos + 20 + plen;
        lemma_parse_files_wf(data, pos2, (n - 1) as nat);
        let (files, end) = spec_parse_files(data, pos, n)->Ok_0;
        let (rest, _) = spec_parse_files(data, pos2, (n - 1) as nat)->Ok_0;
        let e0 = files[0];
        assert(data.subrange(pos + 4, pos + 4 + plen) == encode_utf8(e0.path));
        assert(encode_utf8(e0.path).len() == plen);
        assert(parsed_file_entry(e0, data));
        assert forall|i: int| 0 <= i < files.len() implies parsed_file_entry(
            #[trigger] files[i],
            data,
        ) && pos <= files[i].entry_offset && size_field_pos(files[i]) + 16 <= end by {
            if i > 0 {
                assert(files[i] == rest[i - 1]);
            }
        }
        assert forall|i: int, j: int| 0 <= i < j < files.len() implies size_field_pos(
            #[trigger] files[i],
        ) + 16 <= (#[trigger] files[j]).entry_offset by {
            assert(files[j] == rest[j - 1]);
            if i > 0 {
                assert(files[i] == rest[i - 1]);
            } else {
                assert(pos2 <= rest[j - 1].entry_offset);
            }
        }
    }
}

/// A successful subfile-table parse runs forward through the bytes.
pub proof fn lemma_parse_subfiles_bounds(data: Seq<u8>, pos: int, n: nat)
    requires
        0 <= pos <= data.len(),
        spec_parse_subfiles(data, pos, n) is Ok,
    ensures
        pos <= spec_parse_subfiles(data, pos, n)->Ok_0.1 <= data.len(),
    decreases n,
{
    if n > 0 {
        let nlen = le32_at(data, pos) as int;
        lemma_parse_subfiles_bounds(data, pos + 5 + nlen, (n - 1) as nat);
    }
}

/// A successful directory-table parse runs forward through the bytes.
pub proof fn lemma_parse_dirs_bounds(data: Seq<u8>, pos: int, n: nat)
    requires
        0 <= pos <= data.len(),
        spec_parse_dirs(data, pos, n) is Ok,
    ensures
        pos <= spec_parse_dirs(data, pos, n)->Ok_0.1 <= data.len(),
    decreases n,
{
    if n > 0 {
        let plen = le32_at(data, pos) as int;
        let count = le32_at(data, pos + 4 + plen) as nat;
        lemma_parse_subfiles_bounds(data, pos + 8 + plen, count);
        let mid = spec_parse_subfiles(data, pos + 8 + plen, count)->Ok_0.1;
        lemma_parse_dirs_bounds(data, mid, (n - 1) as nat);
    }
}

/// A successfully parsed header whose payload ranges lie within the file
/// satisfies the archive invariant.
pub proof fn lemma_parse_header_wf(data: Seq<u8>)
    requires
        spec_parse_header(data) is Ok,
        ranges_ok(spec_parse_header(data)->Ok_0, data),
    ensures
        header_wf(spec_parse_header(data)->Ok_0, data),
{
    let h = spec_parse_header(data)->Ok_0;
    let fcount = le32_at(data, 16) as nat;
    lemma_parse_files_wf(data, 20, fcount);
    let (files, fend) = spec_parse_files(data, 20, fcount)->Ok_0;
    let dcount = le32_at(data, fend) as nat;
    lemma_parse_dirs_bounds(data, fend + 4, dcount);
}

/// The index of the last file-table record with this path, or `-1` when
/// no record has it: on duplicate paths the last one wins.
pub open spec fn last_index(files: Seq<SpecFileEntry>, path: Seq<char>) -> int
    decreases files.len(),
{
    if files.len() == 0 {
        -1
    } else if files.last().path == path {
        files.len() - 1
    } else {
        last_index(files.drop_last(), path)
    }
}

/// `last_index` names the last matching record exactly.
pub proof fn lemma_last_index(files: Seq<SpecFileEntry>, path: Seq<char>)
    ensures
        last_index(files, path) < 0 ==> (forall|j: int|
            0 <= j < files.len() ==> (#[trigger] files[j]).path != path),
        last_index(files, path) >= 0 ==> 0 <= last_index(files, path) < files.len() && files[
            last_index(files, path)
        ].path == path && (forall|j: int|
            last_index(files, path) < j < files.len() ==> (#[trigger] files[j]).path != path),
    decreases files.len(),
{
    if files.len() > 0 && files.last().path != path {
        lemma_last_index(files.drop_last(), path);
        let t = files.drop_last();
        assert forall|j: int| 0 <= j < t.len() implies t[j] == files[j] by {}
    }
}

/// The directory version of `last_index`.
pub open spec fn last_dir_index(dirs: Seq<SpecDirEntry>, path: Seq<char>) -> int
    decreases dirs.len(),
{
    if dirs.len() == 0 {
        -1
    } else if dirs.last().path == path {
        dirs.len() - 1
    } else {
        last_dir_index(dirs.drop_last(), path)
    }
}

/// `last_dir_index` names the last matching directory exactly.
pub proof fn lemma_last_dir_index(dirs: Seq<SpecDirEntry>, path: Seq<char>)
    ensures
        last_dir_index(dirs, path) < 0 ==> (forall|j: int|
            0 <= j < dirs.len() ==> (#[trigger] dirs[j]).path != path),
        last_dir_index(dirs, path) >= 0 ==> 0 <= last_dir_index(dirs, path) < dirs.len() && dirs[
            last_dir_index(dirs, path)
        ].path == path && (forall|j: int|
            last_dir_index(dirs, path) < j < dirs.len() ==> (#[trigger] dirs[j]).path != path),
    decreases dirs.len(),
{
    if dirs.len() > 0 && dirs.last().path != path {
        lemma_last_dir_index(dirs.drop_last(), path);
        let t = dirs.drop_last();
        assert forall|j: int| 0 <= j < t.len() implies t[j] == dirs[j] by {}
    }
}

/// What reading a file yields: the payload bytes of the last record with
/// the path, or `UnknownPath` when no record has it.
pub open spec fn spec_read_file(w: SpecWad, path: Seq<char>) -> Result<Seq<u8>, Error> {
    let i = last_index(w.header.files, path);
    if i < 0 {
        Err(Error::UnknownPath)
    } else {
        let e = w.header.files[i];
        if w.header.size + e.offset + e.size > w.data.len() {
            Err(Error::UnexpectedEnd)
        } else {
            Ok(w.data.subrange(w.header.size + e.offset, w.header.size + e.offset + e.size))
        }
    }
}

/// What injecting a payload does. The last file-table record with the
/// path is patched: its on-disk size field is overwritten with the new
/// length; a payload that fits is overwritten in place, slack beyond it
/// left as it was; a payload that grew is relocated, its on-disk offset
/// field rewritten to point at the old end of the file and the payload
/// appended there. An unknown path changes nothing.
pub open spec fn spec_inject(w: SpecWad, path: Seq<char>, new: Seq<u8>) -> Result<SpecWad, Error> {
    let i = last_index(w.header.files, path);
    if i < 0 {
        Err(Error::UnknownPath)
    } else {
        let e = w.header.files[i];
        let sp = size_field_pos(e);
        let d1 = overwrite(w.data, sp, spec_u64_to_le_bytes(new.len() as u64));
        if new.len() <= e.size {
            let e2 = SpecFileEntry {
                entry_offset: e.entry_offset,
                path: e.path,
                size: new.len() as int,
                offset: e.offset,
            };
            let h2 = SpecHeader {
                version: w.header.version,
                files: w.header.files.update(i, e2),
                dirs: w.header.dirs,
                size: w.header.size,
            };
            Ok(SpecWad { header: h2, data: overwrite(d1, w.header.size + e.offset, new) })
        } else {
            let noff = w.data.len() - w.header.size;
            let e2 = SpecFileEntry {
                entry_offset: e.entry_offset,
                path: e.path,
                size: new.len() as int,
                offset: noff,
            };
            let h2 = SpecHeader {
                version: w.header.version,
                files: w.header.files.update(i, e2),
                dirs: w.header.dirs,
                size: w.header.size,
            };
            Ok(
                SpecWad {
                    header: h2,
                    data: overwrite(d1, sp + 8, spec_u64_to_le_bytes(noff as u64)) + new,
                },
            )
        }
    }
}

/// A 64-bit field is unchanged by an overwrite that does not touch it.
proof fn lemma_le64_overwrite_disjoint(s: Seq<u8>, pos: int, w: Seq<u8>, p: int)
    requires
        0 <= p,
        p + 8 <= s.len(),
        p + 8 <= pos || pos + w.len() <= p,
    ensures
        le64_at(overwrite(s, pos, w), p) == le64_at(s, p),
{
    assert(overwrite(s, pos, w).subrange(p, p + 8) =~= s.subrange(p, p + 8));
}

/// A 64-bit field overwritten with a value reads back as that value.
proof fn lemma_le64_overwrite_at(s: Seq<u8>, pos: int, x: u64)
    requires
        0 <= pos,
        pos + 8 <= s.len(),
    ensures
        le64_at(overwrite(s, pos, spec_u64_to_le_bytes(x)), pos) == x,
{
    vstd::bytes::lemma_auto_spec_u64_to_from_le_bytes();
    assert(overwrite(s, pos, spec_u64_to_le_bytes(x)).subrange(pos, pos + 8)
        =~= spec_u64_to_le_bytes(x));
}

/// A 64-bit field inside a sequence is unchanged by appending to it.
proof fn lemma_le64_append(s: Seq<u8>, t: Seq<u8>, p: int)
    requires
        0 <= p,
        p + 8 <= s.len(),
    ensures
        le64_at(s + t, p) == le64_at(s, p),
{
    assert((s + t).subrange(p, p + 8) =~= s.subrange(p, p + 8));
}

/// The listing of a directory's subfiles: each name prefixed with the
/// directory path and a slash, directories skipped when `only_files` is
/// set.
pub open spec fn spec_listed(
    subs: Seq<SpecSubfileEntry>,
    dirpath: Seq<char>,
    only_files: bool,
) -> Seq<Seq<char>>
    decreases subs.len(),
{
    if subs.len() == 0 {
        Seq::empty()
    } else {
        let rest = spec_listed(subs.drop_first(), dirpath, only_files);
        if !only_files || !subs[0].is_directory {
            seq![dirpath + seq!['/'] + subs[0].name] + rest
        } else {
            rest
        }
    }
}

/// Listing one more subfile appends at most one name.
proof fn lemma_listed_push(
    subs: Seq<SpecSubfileEntry>,
    x: SpecSubfileEntry,
    dirpath: Seq<char>,
    only_files: bool,
)
    ensures
        spec_listed(subs.push(x), dirpath, only_files) == spec_listed(subs, dirpath, only_files)
            + (if !only_files || !x.is_directory {
            seq![dirpath + seq!['/'] + x.name]
        } else {
            Seq::<Seq<char>>::empty()
        }),
    decreases subs.len(),
{
    let tail = (if !only_files || !x.is_directory {
        seq![dirpath + seq!['/'] + x.name]
    } else {
        Seq::<Seq<char>>::empty()
    });
    if subs.len() == 0 {
        assert(subs.push(x).drop_first() =~= Seq::<SpecSubfileEntry>::empty());
        assert(subs.push(x)[0] == x);
        assert(spec_listed(Seq::<SpecSubfileEntry>::empty(), dirpath, only_files)
            == Seq::<Seq<char>>::empty());
        assert(spec_listed(subs.push(x), dirpath, only_files) =~= spec_listed(
            subs,
            dirpath,
            only_files,
        ) + tail);
    } else {
        lemma_listed_push(subs.drop_first(), x, dirpath, only_files);
        assert(subs.push(x).drop_first() =~= subs.drop_first().push(x));
        assert(spec_listed(subs.push(x).drop_first(), dirpath, only_files) == spec_listed(
            subs.drop_first(),
            dirpath,
            only_files,
        ) + tail);
        assert(subs.push(x)[0] == subs[0]);
        if !only_files || !subs[0].is_directory {
            assert(spec_listed(subs.push(x), dirpath, only_files) == seq![
                dirpath + seq!['/'] + subs[0].name,
            ] + (spec_listed(subs.drop_first(), dirpath, only_files) + tail));
            assert(seq![dirpath + seq!['/'] + subs[0].name] + (spec_listed(
                subs.drop_first(),
                dirpath,
                only_files,
            ) + tail) =~= spec_listed(subs, dirpath, only_files) + tail);
        } else {
            assert(spec_listed(subs.push(x), dirpath, only_files) == spec_listed(
                subs,
                dirpath,
                only_files,
            ) + tail);
        }
    }
}

/// What listing a directory yields: the names of the last directory
/// record with the path, or `UnknownDir` when no record has it.
pub open spec fn spec_list_dir(h: SpecHeader, path: Seq<char>, only_files: bool) -> Result<
    Seq<Seq<char>>,
    Error,
> {
    let i = last_dir_index(h.dirs, path);
    if i < 0 {
        Err(Error::UnknownDir)
    } else {
        Ok(spec_listed(h.dirs[i].subfiles, path, only_files))
    }
}

/// Updating a record with one that has the same path leaves the lookup
/// at the same index.
proof fn lemma_last_index_update_same(
    files: Seq<SpecFileEntry>,
    path: Seq<char>,
    i: int,
    e2: SpecFileEntry,
)
    requires
        i == last_index(files, path),
        0 <= i < files.len(),
        e2.path == path,
    ensures
        last_index(files.update(i, e2), path) == i,
{
    let files2 = files.update(i, e2);
    lemma_last_index(files, path);
    lemma_last_index(files2, path);
    let li = last_index(files2, path);
    assert(files2[i].path == path);
    assert(li >= 0);
    if li > i {
        assert(files2[li] == files[li]);
        assert(files[li].path != path);
    }
    if li < i {
        assert(files2[i].path != path);
    }
}

/// Injecting a payload no longer than the slot patches in place: the
/// archive keeps its length and its invariant, the record's offset — in
/// memory and on disk — is unchanged, and reading the path afterwards
/// yields exactly the injected bytes.
pub proof fn lemma_inject_in_place(w0: SpecWad, path: Seq<char>, new: Seq<u8>)
    requires
        header_wf(w0.header, w0.data),
        last_index(w0.header.files, path) >= 0,
        new.len() <= w0.header.files[last_index(w0.header.files, path)].size,
    ensures
        spec_inject(w0, path, new) is Ok,
        ({
            let i = last_index(w0.header.files, path);
            let e0 = w0.header.files[i];
            let w2 = spec_inject(w0, path, new)->Ok_0;
            &&& header_wf(w2.header, w2.data)
            &&& w2.data.len() == w0.data.len()
            &&& w2.header.files[i].offset == e0.offset
            &&& le64_at(w2.data, size_field_pos(e0) + 8) == le64_at(w0.data, size_field_pos(e0) + 8)
            &&& spec_read_file(w2, path) == Ok::<Seq<u8>, Error>(new)
        }),
{
    let i = last_index(w0.header.files, path);
    let h = w0.header;
    let e0 = h.files[i];
    lemma_last_index(h.files, path);
    assert(file_entry_wf(e0, h, w0.data));
    let sp = size_field_pos(e0);
    let szb = spec_u64_to_le_bytes(new.len() as u64);
    vstd::bytes::lemma_auto_spec_u64_to_from_le_bytes();
    let d1 = overwrite(w0.data, sp, szb);
    let start = h.size + e0.offset;
    let d2 = overwrite(d1, start, new);
    let w2 = spec_inject(w0, path, new)->Ok_0;
    let e2 = w2.header.files[i];
    assert(w2.data == d2);
    assert(size_field_pos(e2) == sp);
    lemma_last_index_update_same(h.files, path, i, e2);

    // The patched record mirrors the bytes.
    lemma_le64_overwrite_at(w0.data, sp, new.len() as u64);
    lemma_le64_overwrite_disjoint(d1, start, new, sp);
    lemma_le64_overwrite_disjoint(w0.data, sp, szb, sp + 8);
    lemma_le64_overwrite_disjoint(d1, start, new, sp + 8);
    assert(le64_at(d2, sp) as int == new.len());
    assert(le64_at(d2, sp + 8) == le64_at(w0.data, sp + 8));
    assert(file_entry_wf(e2, w2.header, d2));

    // Every other record's tail is disjoint from both writes.
    assert forall|j: int|
        0 <= j < w2.header.files.len() && j != i implies file_entry_wf(
        #[trigger] w2.header.files[j],
        w2.header,
        d2,
    ) by {
        let ej = w2.header.files[j];
        assert(ej == h.files[j]);
        assert(file_entry_wf(ej, h, w0.data));
        if j < i {
            assert(size_field_pos(ej) + 16 <= e0.entry_offset);
        } else {
            assert(sp + 16 <= ej.entry_offset);
        }
        lemma_le64_overwrite_disjoint(w0.data, sp, szb, size_field_pos(ej));
        lemma_le64_overwrite_disjoint(d1, start, new, size_field_pos(ej));
        lemma_le64_overwrite_disjoint(w0.data, sp, szb, size_field_pos(ej) + 8);
        lemma_le64_overwrite_disjoint(d1, start, new, size_field_pos(ej) + 8);
    }
    assert(header_wf(w2.header, d2));

    // Reading back yields the injected bytes.
    assert(d2.subrange(start, start + new.len()) =~= new);
}

/// Injecting a payload longer than the slot relocates it: the archive
/// grows by exactly the payload length, keeps its invariant, the
/// record's offset becomes the old file length minus the header size,
/// and reading the path afterwards yields exactly the injected bytes.
pub proof fn lemma_inject_relocate(w0: SpecWad, path: Seq<char>, new: Seq<u8>)
    requires
        header_wf(w0.header, w0.data),
        last_index(w0.header.files, path) >= 0,
        new.len() > w0.header.files[last_index(w0.header.files, path)].size,
        new.len() <= u64::MAX,
        w0.data.len() <= u64::MAX,
    ensures
        spec_inject(w0, path, new) is Ok,
        ({
            let i = last_index(w0.header.files, path);
            let w2 = spec_inject(w0, path, new)->Ok_0;
            &&& header_wf(w2.header, w2.data)
            &&& w2.data.len() == w0.data.len() + new.len()
            &&& w2.header.files[i].offset == w0.data.len() - w0.header.size
            &&& spec_read_file(w2, path) == Ok::<Seq<u8>, Error>(new)
        }),
{
    let i = last_index(w0.header.files, path);
    let h = w0.header;
    let e0 = h.files[i];
    lemma_last_index(h.files, path);
    assert(file_entry_wf(e0, h, w0.data));
    let sp = size_field_pos(e0);
    let noff = w0.data.len() - h.size;
    let szb = spec_u64_to_le_bytes(new.len() as u64);
    let ofb = spec_u64_to_le_bytes(noff as u64);
    vstd::bytes::lemma_auto_spec_u64_to_from_le_bytes();
    let d1 = overwrite(w0.data, sp, szb);
    let d2 = overwrite(d1, sp + 8, ofb);
    let d3 = d2 + new;
    let w2 = spec_inject(w0, path, new)->Ok_0;
    let e2 = w2.header.files[i];
    assert(w2.data == d3);
    assert(size_field_pos(e2) == sp);
    lemma_last_index_update_same(h.files, path, i, e2);

    // The patched record mirrors the bytes.
    lemma_le64_overwrite_at(w0.data, sp, new.len() as u64);
    lemma_le64_overwrite_disjoint(d1, sp + 8, ofb, sp);
    lemma_le64_append(d2, new, sp);
    lemma_le64_overwrite_at(d1, sp + 8, noff as u64);
    lemma_le64_append(d2, new, sp + 8);
    assert(le64_at(d3, sp) as int == new.len());
    assert(le64_at(d3, sp + 8) as int == noff);
    assert(file_entry_wf(e2, w2.header, d3));

    // Every other record's tail is disjoint from both field writes and
    // below the appended payload.
    assert forall|j: int|
        0 <= j < w2.header.files.len() && j != i implies file_entry_wf(
        #[trigger] w2.header.files[j],
        w2.header,
        d3,
    ) by {
        let ej = w2.header.files[j];
        assert(ej == h.files[j]);
        assert(file_entry_wf(ej, h, w0.data));
        if j < i {
            assert(size_field_pos(ej) + 16 <= e0.entry_offset);
        } else {
            assert(sp + 16 <= ej.entry_offset);
        }
        lemma_le64_overwrite_disjoint(w0.data, sp, szb, size_field_pos(ej));
        lemma_le64_overwrite_disjoint(d1, sp + 8, ofb, size_field_pos(ej));
        lemma_le64_append(d2, new, size_field_pos(ej));
        lemma_le64_overwrite_disjoint(w0.data, sp, szb, size_field_pos(ej) + 8);
        lemma_le64_overwrite_disjoint(d1, sp + 8, ofb, size_field_pos(ej) + 8);
        lemma_le64_append(d2, new, size_field_pos(ej) + 8);
    }
    assert(header_wf(w2.header, d3));

    // Reading back yields the appended bytes.
    assert(d3.subrange(h.size + noff, h.size + noff + new.len()) =~= new);
}

impl Wad {
    /// The archive invariant, established by `open` and preserved by
    /// every operation.
    pub open spec fn wf(self) -> bool {
        header_wf(self@.header, self@.data)
    }

    /// Opens an archive held in memory: parses the header and keeps the
    /// bytes. Succeeds if and only if the header parses and every payload
    /// named by the file table lies within the bytes.
    pub fn open(data: Vec<u8>) -> (r: Result<Wad, Error>)
        ensures
            match spec_parse_header(data@) {
                Err(e) => r matches Err(e2) && e2 == e,
                Ok(h) => {
                    if ranges_ok(h, data@) {
                        r matches Ok(w) && w@ == (SpecWad { header: h, data: data@ }) && w.wf()
                    } else {
                        r matches Err(e2) && e2 == Error::UnexpectedEnd
                    }
                },
            },
    {
        let header = match Header::read_from(data.as_slice()) {
            Ok(h) => h,
            Err(e) => {
                return Err(e);
            },
        };
        let nf = header.files.len();
        for i in 0..nf
            invariant
                nf == header.files@.len(),
                spec_parse_header(data@) is Ok,
                header@ == spec_parse_header(data@)->Ok_0,
                forall|j: int|
                    0 <= j < i ==> header@.size + (#[trigger] header@.files[j]).offset
                        + header@.files[j].size <= data@.len(),
        {
            let e = &header.files[i];
            if (header.size as u128) + (e.offset as u128) + (e.size as u128) > (data.len()
                as u128) {
                proof {
                    assert(header@.files[i as int] == header.files@[i as int]@);
                    assert(header@.size + header@.files[i as int].offset + header@.files[
                        i as int
                    ].size > data@.len());
                    assert(!ranges_ok(header@, data@));
                }
                return Err(Error::UnexpectedEnd);
            }
            proof {
                assert(header@.files[i as int] == header.files@[i as int]@);
            }
        }
        proof {
            assert(ranges_ok(header@, data@));
            lemma_parse_header_wf(data@);
        }
        Ok(Wad { header, data })
    }

    /// The whole backing file's bytes, header region and data region,
    /// as the archive currently stands.
    pub fn bytes(&self) -> (r: &Vec<u8>)
        ensures
            r@ == self@.data,
    {
        &self.data
    }

    /// The parsed header of the archive.
    pub fn header(&self) -> (r: &Header)
        ensures
            r@ == self@.header,
    {
        &self.header
    }

    /// Reads the whole payload of the file at the given path: the last
    /// file-table record with that path names the bytes. Fails with
    /// `UnknownPath` when no record has the path.
    pub fn read_file(&self, path: &str) -> (r: Result<Vec<u8>, Error>)
        ensures
            match spec_read_file(self@, path@) {
                Ok(bytes) => r matches Ok(v) && v@ == bytes,
                Err(e) => r matches Err(e2) && e2 == e,
            },
    {
        proof {
            lemma_last_index(self@.header.files, path@);
        }
        let i = match self.find_file(path) {
            Some(i) => i,
            None => {
                return Err(Error::UnknownPath);
            },
        };
        let e = &self.header.files[i];
        if (self.header.size as u128) + (e.offset as u128) + (e.size as u128) > (self.data.len()
            as u128) {
            return Err(Error::UnexpectedEnd);
        }
        let start = (self.header.size + e.offset) as usize;
        let len = e.size as usize;
        Ok(
            vstd::slice::slice_to_vec(
                vstd::slice::slice_subrange(self.data.as_slice(), start, start + len),
            ),
        )
    }

    /// Injects a payload at the given path, patching the archive bytes in
    /// place as the wire format requires; a payload longer than the slot
    /// is relocated to the end of the file. Fails with `UnknownPath`,
    /// changing nothing, when no file-table record has the path.
    pub fn inject_file(&mut self, path: &str, data: &[u8]) -> (r: Result<(), Error>)
        requires
            old(self).wf(),
            old(self)@.data.len() + data@.len() <= usize::MAX,
        ensures
            final(self).wf(),
            match spec_inject(old(self)@, path@, data@) {
                Ok(w2) => r is Ok && final(self)@ == w2,
                Err(e) => (r matches Err(e2) && e2 == e) && *final(self) == *old(self),
            },
    {
        proof {
            lemma_last_index(self@.header.files, path@);
        }
        let i = match self.find_file(path) {
            Some(i) => i,
            None => {
                return Err(Error::UnknownPath);
            },
        };
        let ghost w0 = self@;
        let ghost e0 = w0.header.files[i as int];
        proof {
            assert(self.header.files@[i as int]@ == e0);
            assert(file_entry_wf(e0, w0.header, w0.data));
        }

        let entry_offset = self.header.files[i].entry_offset;
        let old_sz = self.header.files[i].size;
        let old_off = self.header.files[i].offset;
        let plen = self.header.files[i].path.as_str().len();
        proof {
            assert(plen == encode_utf8(e0.path).len());
            assert(size_field_pos(e0) == entry_offset + 4 + plen);
        }
        let sp = (entry_offset as usize) + 4 + plen;
        let new_size: u64 = data.len() as u64;

        let sb = vstd::bytes::u64_to_le_bytes(new_size);
        write_bytes_at(&mut self.data, sp, sb.as_slice());
        let fe = vstd::std_specs::vec::vec_index_mut(&mut self.header.files, i);
        fe.size = new_size;

        if new_size <= old_sz {
            let start = (self.header.size as usize) + (old_off as usize);
            write_bytes_at(&mut self.data, start, data);
            proof {
                let e2 = SpecFileEntry {
                    entry_offset: e0.entry_offset,
                    path: e0.path,
                    size: data@.len() as int,
                    offset: e0.offset,
                };
                assert(self.header.files@[i as int]@ == e2);
                assert forall|j: int| 0 <= j < self.header.files@.len() implies #[trigger] self
                    .header@.files[j] == w0.header.files.update(i as int, e2)[j] by {
                    assert(self.header@.files[j] == self.header.files@[j]@);
                }
                assert(self.header@.files =~= w0.header.files.update(i as int, e2));
                assert(self.header@ == (SpecHeader {
                    version: w0.header.version,
                    files: w0.header.files.update(i as int, e2),
                    dirs: w0.header.dirs,
                    size: w0.header.size,
                }));
                assert(self@.data == overwrite(
                    overwrite(w0.data, size_field_pos(e0), spec_u64_to_le_bytes(new_size)),
                    w0.header.size + e0.offset,
                    data@,
                ));
                lemma_inject_in_place(w0, path@, data@);
                assert(self@ == spec_inject(w0, path@, data@)->Ok_0);
            }
            Ok(())
        } else {
            let total = self.data.len();
            let new_off: u64 = (total as u64) - self.header.size;
            let ob = vstd::bytes::u64_to_le_bytes(new_off);
            write_bytes_at(&mut self.data, sp + 8, ob.as_slice());
            let fe2 = vstd::std_specs::vec::vec_index_mut(&mut self.header.files, i);
            fe2.offset = new_off;
            self.data.extend_from_slice(data);
            proof {
                let e2 = SpecFileEntry {
                    entry_offset: e0.entry_offset,
                    path: e0.path,
                    size: data@.len() as int,
                    offset: w0.data.len() - w0.header.size,
                };
                assert(self.header.files@[i as int]@ == e2);
                assert forall|j: int| 0 <= j < self.header.files@.len() implies #[trigger] self
                    .header@.files[j] == w0.header.files.update(i as int, e2)[j] by {
                    assert(self.header@.files[j] == self.header.files@[j]@);
                }
                assert(self.header@.files =~= w0.header.files.update(i as int, e2));
                assert(self.header@ == (SpecHeader {
                    version: w0.header.version,
                    files: w0.header.files.update(i as int, e2),
                    dirs: w0.header.dirs,
                    size: w0.header.size,
                }));
                assert(self@.data == overwrite(
                    overwrite(w0.data, size_field_pos(e0), spec_u64_to_le_bytes(new_size)),
                    size_field_pos(e0) + 8,
                    spec_u64_to_le_bytes((w0.data.len() - w0.header.size) as u64),
                ) + data@);
                lemma_inject_relocate(w0, path@, data@);
                assert(self@ == spec_inject(w0, path@, data@)->Ok_0);
            }
            Ok(())
        }
    }

    /// Lists the entries of the directory at the given path as
    /// `"{dir_path}/{name}"` strings, in table order, restricted to
    /// non-directories when `only_files` is set. Fails with `UnknownDir`
    /// when no directory record has the path.
    pub fn list_dir(&self, path: &str, only_files: bool) -> (r: Result<Vec<String>, Error>)
        ensures
            match spec_list_dir(self@.header, path@, only_files) {
                Ok(names) => r matches Ok(v) && v.deep_view() == names,
                Err(e) => r matches Err(e2) && e2 == e,
            },
    {
        proof {
            lemma_last_dir_index(self@.header.dirs, path@);
        }
        let i = match self.find_dir(path) {
            Some(i) => i,
            None => {
                return Err(Error::UnknownDir);
            },
        };
        let dir = &self.header.dirs[i];
        let ghost subs = self@.header.dirs[i as int].subfiles;
        let m = dir.subfiles.len();
        let mut out: Vec<String> = Vec::new();
        proof {
            reveal_strlit("/");
            assert(subs.take(0) =~= Seq::<SpecSubfileEntry>::empty());
        }
        for k in 0..m
            invariant
                m == dir.subfiles@.len(),
                subs == self@.header.dirs[i as int].subfiles,
                subs.len() == m,
                dir.path@ == path@,
                forall|j: int| 0 <= j < m ==> subs[j] == (#[trigger] dir.subfiles@[j])@,
                out.deep_view() == spec_listed(subs.take(k as int), path@, only_files),
        {
            let sf = &dir.subfiles[k];
            proof {
                reveal_strlit("/");
                lemma_listed_push(subs.take(k as int), subs[k as int], path@, only_files);
                assert(subs.take(k + 1) =~= subs.take(k as int).push(subs[k as int]));
            }
            if !only_files || !sf.is_directory {
                let mut s = String::new();
                s.append(dir.path.as_str());
                s.append("/");
                s.append(sf.name.as_str());
                let ghost old_out = out.deep_view();
                out.push(s);
                proof {
                    assert(s@ =~= path@ + seq!['/'] + subs[k as int].name);
                    assert(out.deep_view() =~= old_out.push(s@));
                    assert(out.deep_view() =~= spec_listed(subs.take(k + 1), path@, only_files));
                }
            }
        }
        proof {
            assert(subs.take(m as int) =~= subs);
        }
        Ok(out)
    }

    /// Looks the path up in the directory table; on duplicate paths the
    /// last record wins.
    fn find_dir(&self, path: &str) -> (r: Option<usize>)
        ensures
            match r {
                Some(i) => i as int == last_dir_index(self@.header.dirs, path@) && self@.header.dirs[
                    i as int
                ].path == path@,
                None => last_dir_index(self@.header.dirs, path@) < 0,
            },
    {
        let ghost dirs = self@.header.dirs;
        proof {
            lemma_last_dir_index(dirs, path@);
        }
        let n = self.header.dirs.len();
        let mut found: Option<usize> = None;
        for i in 0..n
            invariant
                n == self.header.dirs@.len(),
                dirs == self@.header.dirs,
                dirs.len() == n,
                forall|j: int| 0 <= j < n ==> dirs[j] == (#[trigger] self.header.dirs@[j])@,
                match found {
                    Some(k) => k < i && dirs[k as int].path == path@ && (forall|j: int|
                        k < j < i ==> (#[trigger] dirs[j]).path != path@),
                    None => forall|j: int| 0 <= j < i ==> (#[trigger] dirs[j]).path != path@,
                },
        {
            if crate::text::str_eq(self.header.dirs[i].path.as_str(), path) {
                found = Some(i);
            }
        }
        proof {
            let li = last_dir_index(dirs, path@);
            match found {
                Some(k) => {
                    if li < k {
                        assert(dirs[k as int].path != path@);
                    }
                    if li > k {
                        assert(dirs[li].path != path@);
                    }
                },
                None => {
                    if li >= 0 {
                        assert(dirs[li].path != path@);
                    }
                },
            }
        }
        found
    }

    /// Looks the path up in the file table; on duplicate paths the last
    /// record wins.
    fn find_file(&self, path: &str) -> (r: Option<usize>)
        ensures
            match r {
                Some(i) => i as int == last_index(self@.header.files, path@),
                None => last_index(self@.header.files, path@) < 0,
            },
    {
        let ghost files = self@.header.files;
        proof {
            lemma_last_index(files, path@);
        }
        let n = self.header.files.len();
        let mut found: Option<usize> = None;
        for i in 0..n
            invariant
                n == self.header.files@.len(),
                files == self@.header.files,
                files.len() == n,
                forall|j: int| 0 <= j < n ==> files[j] == (#[trigger] self.header.files@[j])@,
                match found {
                    Some(k) => k < i && files[k as int].path == path@ && (forall|j: int|
                        k < j < i ==> (#[trigger] files[j]).path != path@),
                    None => forall|j: int| 0 <= j < i ==> (#[trigger] files[j]).path != path@,
                },
        {
            if crate::text::str_eq(self.header.files[i].path.as_str(), path) {
                found = Some(i);
            }
        }
        proof {
            let li = last_index(files, path@);
            match found {
                Some(k) => {
                    assert(files[k as int].path == path@);
                    assert(li >= 0);
                    if li < k {
                        assert(files[k as int].path != path@);
                    }
                    if li > k {
                        assert(files[li].path != path@);
                    }
                    assert(li == k);
                },
                None => {
                    if li >= 0 {
                        assert(files[li].path != path@);
                    }
                },
            }
        }
        found
    }
}

} // verus!
