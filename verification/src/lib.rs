//! Archive layer of a game-asset modding toolkit.
//!
//! The crate reads and rewrites two nested binary container formats:
//! the top-level archive format (magic `AGAR`, a file table, a directory
//! table and a trailing data region) and the lightweight offset-table
//! container (`Pak`) that often appears as an archive entry's payload.
//! It also carries the text-script tooling built on those containers.

use vstd::prelude::*;

pub mod bytes;
pub mod encoding;
pub mod pak;
pub mod text;
pub mod script;
pub mod script_parser;
pub mod wad;

verus! {

/// Every failure the container formats can report.
#[derive(Clone, Copy, Debug, PartialEq, Eq, Structural)]
pub enum Error {
    /// The archive header does not begin with the expected magic bytes.
    MalformedMagic,
    /// A path or text field is not valid UTF-8.
    InvalidUtf8,
    /// A text entry is not valid UTF-16.
    InvalidUtf16,
    /// The input ended before a complete record could be read.
    UnexpectedEnd,
    /// A container offset table is not strictly ascending, or its first
    /// offset does not equal the table's own size.
    InvalidOffsetTable,
    /// No file with the given path exists in the archive's file table.
    UnknownPath,
    /// No directory with the given path exists in the archive.
    UnknownDir,
    /// A nested-container index is outside the entry list.
    IndexOutOfRange,
    /// A nested-container path runs through an entry that cannot be
    /// interpreted as a sub-container.
    InvalidIndices,
    /// The encoded form of a container would not fit the format's 32-bit
    /// offset table.
    TooLarge,
}

} // verus!
