//! Codec for the PFS container archive format used by the Artemis
//! visual-novel engine.
//!
//! An archive is a single byte stream holding an 11-byte header, a
//! count-prefixed index of path/offset/size records with a trailing offset
//! table, and a contiguous payload region of concatenated file contents.
//! Version `'8'` archives obfuscate every payload byte with a XOR stream
//! keyed by the SHA-1 digest of the index region; version `'6'` archives
//! store payloads verbatim.
//!
//! The crate works on in-memory byte vectors: enumerating a directory tree,
//! reading the archive file, and placing extracted files on disk are the
//! caller's business.
use vstd::prelude::*;

pub mod codec;
pub mod hash;
pub mod laws;
pub mod pack;
pub mod unpack;
pub mod utf8check;

verus! {

/// First magic byte of an archive, `b'p'`.
pub const MAGIC0: u8 = 0x70;

/// Second magic byte of an archive, `b'f'`.
pub const MAGIC1: u8 = 0x66;

/// A file carried by an archive: a relative path in the in-memory
/// forward-slash form, and the file's bytes. The writer consumes a list of
/// these; extraction produces one per index entry with a payload.
#[derive(Debug, PartialEq, Eq)]
pub struct ArchiveFile {
    /// Relative path, forward-slash separated, expected to be UTF-8.
    pub path: Vec<u8>,
    /// The file's content.
    pub data: Vec<u8>,
}

/// The mathematical value of an [`ArchiveFile`].
pub struct ArchiveFileModel {
    /// Relative path bytes, forward-slash separated.
    pub path: Seq<u8>,
    /// Content bytes.
    pub data: Seq<u8>,
}

impl View for ArchiveFile {
    type V = ArchiveFileModel;

    open spec fn view(&self) -> ArchiveFileModel {
        ArchiveFileModel { path: self.path@, data: self.data@ }
    }
}

/// The fixed-width fields read from the start of an archive.
#[derive(Clone, Copy, Debug, PartialEq, Eq, Structural)]
pub struct ArchiveHeader {
    /// The version byte, an ASCII digit such as `b'6'` or `b'8'`.
    pub pack_version: u8,
    /// Byte length of the index region; the fixed header bytes before the
    /// primary file count are not included.
    pub index_size: u32,
    /// Number of entries in the primary index list.
    pub file_count: u32,
}

/// One parsed or computed index record: a path in the in-memory
/// forward-slash form, the absolute byte offset of the entry's payload, and
/// its byte size. An offset of zero is the reader-side sentinel for "no
/// payload".
#[derive(Debug, PartialEq, Eq)]
pub struct IndexEntry {
    /// Relative path, forward-slash separated.
    pub path: Vec<u8>,
    /// Absolute byte offset of the payload within the archive.
    pub offset: u32,
    /// Byte size of the payload.
    pub size: u32,
}

/// The mathematical value of an [`IndexEntry`].
pub struct IndexEntryModel {
    /// Relative path bytes, forward-slash separated.
    pub path: Seq<u8>,
    /// Absolute byte offset of the payload within the archive.
    pub offset: u32,
    /// Byte size of the payload.
    pub size: u32,
}

impl View for IndexEntry {
    type V = IndexEntryModel;

    open spec fn view(&self) -> IndexEntryModel {
        IndexEntryModel { path: self.path@, offset: self.offset, size: self.size }
    }
}

/// The values of a sequence of index entries.
pub open spec fn entry_models(s: Seq<IndexEntry>) -> Seq<IndexEntryModel> {
    s.map_values(|e: IndexEntry| e@)
}

/// The values of a sequence of archive files.
pub open spec fn file_models(s: Seq<ArchiveFile>) -> Seq<ArchiveFileModel> {
    s.map_values(|f: ArchiveFile| f@)
}

/// Failure kinds of the archive codec.
#[derive(Clone, Copy, Debug, PartialEq, Eq, Structural)]
pub enum PfsError {
    /// Bad magic bytes or a truncated header.
    InvalidFormat,
    /// An index entry's path is not valid UTF-8.
    InvalidEncoding,
    /// A pack was requested for a version with no defined layout.
    UnsupportedVersion,
    /// The byte source ended before a read could be satisfied.
    Io,
}

} // verus!
