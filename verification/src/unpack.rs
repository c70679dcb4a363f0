//! The archive reader: header validation, index parsing, obfuscation-key
//! derivation and payload extraction, over an in-memory byte source.
//!
//! Reading is permissive where the format has historical variants: the
//! legacy version `'2'` inserts an extra reserved word in the header and
//! widens the per-record reserved field, and any other version byte is read
//! with the modern layout. A header or index failure aborts the whole read;
//! an entry whose offset is the zero sentinel is skipped, never extracted.
use vstd::prelude::*;

use crate::codec::host_separated;
use crate::codec::xor_crypt;
use crate::codec::xor_with_key;
use crate::hash::sha1_of;
use crate::hash::sha1_digest;
use crate::pack::VERSION_OBFUSCATED;
use crate::utf8check::validate_utf8;
use crate::ArchiveFile;
use crate::ArchiveFileModel;
use crate::ArchiveHeader;
use crate::IndexEntry;
use crate::IndexEntryModel;
use crate::PfsError;
use crate::entry_models;
use crate::file_models;
use crate::MAGIC0;
use crate::MAGIC1;
use vstd::bytes::spec_u32_from_le_bytes;
use vstd::bytes::u32_from_le_bytes;
use vstd::slice::slice_subrange;
use vstd::slice::slice_to_vec;
use vstd::utf8::valid_utf8;

verus! {

/// The ASCII digit `'2'`, a legacy version read with a wider header and
/// wider per-record reserved fields.
pub const VERSION_LEGACY: u8 = 0x32;

/// The little-endian word at byte position `pos`.
pub open spec fn le32_at(bytes: Seq<u8>, pos: int) -> u32 {
    spec_u32_from_le_bytes(bytes.subrange(pos, pos + 4))
}

/// Bytes of the fixed header for a version: magic, version digit, index
/// size and file count, plus an extra reserved word for the legacy
/// version.
pub open spec fn header_len(version: u8) -> int {
    if version == VERSION_LEGACY {
        15
    } else {
        11
    }
}

/// Width of the reserved field between a record's path and its offset.
pub open spec fn reserved_len(version: u8) -> int {
    if version == VERSION_LEGACY {
        12
    } else {
        4
    }
}

/// The header read from the front of an archive: the magic must match and
/// the fixed fields must all be present, else the archive is refused as
/// `InvalidFormat`.
pub open spec fn parse_header(bytes: Seq<u8>) -> Result<ArchiveHeader, PfsError> {
    if bytes.len() < 7 {
        Err(PfsError::InvalidFormat)
    } else if bytes[0] != MAGIC0 || bytes[1] != MAGIC1 {
        Err(PfsError::InvalidFormat)
    } else {
        let version = bytes[2];
        if bytes.len() < header_len(version) {
            Err(PfsError::InvalidFormat)
        } else {
            Ok(
                ArchiveHeader {
                    pack_version: version,
                    index_size: le32_at(bytes, 3),
                    file_count: le32_at(bytes, header_len(version) - 4),
                },
            )
        }
    }
}

/// One index record read at `pos`: path length, path bytes (stored in wire
/// form, held in memory in host form), the version's reserved field, then
/// offset and size. A record running past the end of the source is `Io`;
/// a path that is not UTF-8 is `InvalidEncoding`.
pub open spec fn parse_entry(bytes: Seq<u8>, pos: int, version: u8) -> Result<
    (IndexEntryModel, int),
    PfsError,
> {
    if pos + 4 > bytes.len() {
        Err(PfsError::Io)
    } else {
        let plen = le32_at(bytes, pos) as int;
        if pos + 4 + plen > bytes.len() {
            Err(PfsError::Io)
        } else {
            let wire = bytes.subrange(pos + 4, pos + 4 + plen);
            if !valid_utf8(wire) {
                Err(PfsError::InvalidEncoding)
            } else {
                let fpos = pos + 4 + plen + reserved_len(version);
                if fpos + 8 > bytes.len() {
                    Err(PfsError::Io)
                } else {
                    Ok(
                        (
                            IndexEntryModel {
                                path: host_separated(wire),
                                offset: le32_at(bytes, fpos),
                                size: le32_at(bytes, fpos + 4),
                            },
                            fpos + 8,
                        ),
                    )
                }
            }
        }
    }
}

/// `count` consecutive index records from `pos`, with the position just
/// past the last on success; the first failing record fails the whole
/// parse.
pub open spec fn parse_entries(bytes: Seq<u8>, pos: int, count: int, version: u8) -> Result<
    (Seq<IndexEntryModel>, int),
    PfsError,
>
    decreases count,
{
    if count <= 0 {
        Ok((Seq::<IndexEntryModel>::empty(), pos))
    } else {
        match parse_entry(bytes, pos, version) {
            Err(e) => Err(e),
            Ok((entry, next)) => match parse_entries(bytes, next, count - 1, version) {
                Err(e) => Err(e),
                Ok((rest, end)) => Ok((seq![entry] + rest, end)),
            },
        }
    }
}

/// The whole index of an archive with the given header: its records start
/// right after the fixed header bytes.
pub open spec fn parse_index(bytes: Seq<u8>, header: ArchiveHeader) -> Result<
    (Seq<IndexEntryModel>, int),
    PfsError,
> {
    parse_entries(
        bytes,
        header_len(header.pack_version),
        header.file_count as int,
        header.pack_version,
    )
}

/// The obfuscation key of an archive being read: for version `'8'`, the
/// SHA-1 digest of the `index_size` bytes starting right after the index
/// size field — exactly the bytes the writer hashed; an empty, no-op key
/// for every other version.
pub open spec fn spec_derive_key(bytes: Seq<u8>, version: u8, index_size: u32) -> Result<
    Seq<u8>,
    PfsError,
> {
    if version != VERSION_OBFUSCATED {
        Ok(Seq::<u8>::empty())
    } else if 7 + index_size as int > bytes.len() {
        Err(PfsError::Io)
    } else {
        Ok(sha1_of(bytes.subrange(7, 7 + index_size as int)))
    }
}

/// One entry's plaintext: exactly `size` bytes at the absolute `offset`,
/// put through the XOR stream. A payload running past the end of the
/// source is `Io`, never a short result.
pub open spec fn spec_extract_entry(bytes: Seq<u8>, entry: IndexEntryModel, key: Seq<u8>) -> Result<
    Seq<u8>,
    PfsError,
> {
    if entry.offset as int + entry.size as int > bytes.len() {
        Err(PfsError::Io)
    } else {
        Ok(
            xor_with_key(
                bytes.subrange(entry.offset as int, entry.offset as int + entry.size as int),
                key,
            ),
        )
    }
}

/// The files extracted for a list of entries, in order. An entry whose
/// offset is the zero sentinel is skipped; the first failing payload read
/// fails the extraction.
pub open spec fn spec_extract_all(
    bytes: Seq<u8>,
    entries: Seq<IndexEntryModel>,
    key: Seq<u8>,
) -> Result<Seq<ArchiveFileModel>, PfsError>
    decreases entries.len(),
{
    if entries.len() == 0 {
        Ok(Seq::<ArchiveFileModel>::empty())
    } else {
        let entry = entries[0];
        let rest = entries.drop_first();
        if entry.offset == 0 {
            spec_extract_all(bytes, rest, key)
        } else {
            match spec_extract_entry(bytes, entry, key) {
                Err(e) => Err(e),
                Ok(data) => match spec_extract_all(bytes, rest, key) {
                    Err(e) => Err(e),
                    Ok(tail) => Ok(seq![ArchiveFileModel { path: entry.path, data }] + tail),
                },
            }
        }
    }
}

/// The full read pipeline over a byte source: header, index, key, then
/// every entry's plaintext.
pub open spec fn spec_unpack(bytes: Seq<u8>) -> Result<Seq<ArchiveFileModel>, PfsError> {
    match parse_header(bytes) {
        Err(e) => Err(e),
        Ok(header) => match parse_index(bytes, header) {
            Err(e) => Err(e),
            Ok((entries, _)) => match spec_derive_key(
                bytes,
                header.pack_version,
                header.index_size,
            ) {
                Err(e) => Err(e),
                Ok(key) => spec_extract_all(bytes, entries, key),
            },
        },
    }
}

/// The little-endian word at byte position `pos`.
fn read_u32_at(bytes: &Vec<u8>, pos: usize) -> (r: u32)
    requires
        pos + 4 <= bytes@.len(),
    ensures
        r == le32_at(bytes@, pos as int),
{
    let n = bytes.len();
    assert(pos + 4 <= n);
    u32_from_le_bytes(slice_subrange(bytes.as_slice(), pos, pos + 4))
}

/// Reads and validates the fixed header fields from the front of the
/// source.
pub fn read_header(bytes: &Vec<u8>) -> (r: Result<ArchiveHeader, PfsError>)
    ensures
        r == parse_header(bytes@),
{
    if bytes.len() < 7 {
        return Err(PfsError::InvalidFormat);
    }
    if bytes[0] != MAGIC0 || bytes[1] != MAGIC1 {
        return Err(PfsError::InvalidFormat);
    }
    let version = bytes[2];
    let hlen: usize = if version == VERSION_LEGACY {
        15
    } else {
        11
    };
    if bytes.len() < hlen {
        return Err(PfsError::InvalidFormat);
    }
    let index_size = read_u32_at(bytes, 3);
    let file_count = read_u32_at(bytes, hlen - 4);
    Ok(ArchiveHeader { pack_version: version, index_size, file_count })
}

/// Reads the index records declared by a header, converting each stored
/// path to the in-memory separator form.
pub fn read_index(bytes: &Vec<u8>, header: &ArchiveHeader) -> (r: Result<Vec<IndexEntry>, PfsError>)
    ensures
        ({
            match parse_index(bytes@, *header) {
                Ok((models, end)) => r matches Ok(v) && entry_models(v@) == models,
                Err(e) => r == Err::<Vec<IndexEntry>, PfsError>(e),
            }
        }),
{
    let version = header.pack_version;
    let hlen: usize = if version == VERSION_LEGACY {
        15
    } else {
        11
    };
    let rlen: usize = if version == VERSION_LEGACY {
        12
    } else {
        4
    };
    let count = header.file_count;
    let mut entries: Vec<IndexEntry> = Vec::new();
    let mut pos: usize = hlen;
    let mut k: u32 = 0;
    if bytes.len() < hlen {
        // Fewer bytes than the fixed header: the first record read fails.
        if count > 0 {
            return Err(PfsError::Io);
        }
        return Ok(entries);
    }
    while k < count
        invariant
            version == header.pack_version,
            count == header.file_count,
            hlen as int == header_len(version),
            rlen as int == reserved_len(version),
            k <= count,
            entries@.len() == k as int,
            pos <= bytes@.len(),
            (match parse_entries(bytes@, pos as int, count - k, version) {
                Ok((rest, end)) => parse_index(bytes@, *header) == Ok::<
                    (Seq<IndexEntryModel>, int),
                    PfsError,
                >((entry_models(entries@) + rest, end)),
                Err(e) => parse_index(bytes@, *header) == Err::<
                    (Seq<IndexEntryModel>, int),
                    PfsError,
                >(e),
            }),
        decreases count - k,
    {
        if bytes.len() - pos < 4 {
            return Err(PfsError::Io);
        }
        let plen32 = read_u32_at(bytes, pos);
        let plen = plen32 as usize;
        if bytes.len() - (pos + 4) < plen {
            return Err(PfsError::Io);
        }
        let wire = slice_to_vec(slice_subrange(bytes.as_slice(), pos + 4, pos + 4 + plen));
        if !validate_utf8(&wire) {
            return Err(PfsError::InvalidEncoding);
        }
        if bytes.len() - (pos + 4 + plen) < rlen + 8 {
            return Err(PfsError::Io);
        }
        let fpos = pos + 4 + plen + rlen;
        let host = crate::codec::to_host_separators(&wire);
        let offset = read_u32_at(bytes, fpos);
        let size = read_u32_at(bytes, fpos + 4);
        let ghost entries0 = entries@;
        entries.push(IndexEntry { path: host, offset, size });
        proof {
            let em = IndexEntryModel {
                path: host_separated(wire@),
                offset: offset,
                size: size,
            };
            assert(parse_entry(bytes@, pos as int, version) == Ok::<(IndexEntryModel, int), PfsError>(
                (em, fpos as int + 8),
            ));
            assert(entry_models(entries@) =~= entry_models(entries0) + seq![em]);
        }
        pos = fpos + 8;
        k = k + 1;
        proof {
            assert(forall|a: Seq<IndexEntryModel>, b: Seq<IndexEntryModel>, c: Seq<
                IndexEntryModel,
            >| (a + b) + c =~= a + (b + c));
        }
    }
    proof {
        assert(entry_models(entries@) + Seq::<IndexEntryModel>::empty() =~= entry_models(
            entries@,
        ));
    }
    Ok(entries)
}

/// Derives the obfuscation key an archive was written with; the bytes
/// hashed are the same index region the writer hashed.
pub fn derive_key(bytes: &Vec<u8>, version: u8, index_size: u32) -> (r: Result<Vec<u8>, PfsError>)
    ensures
        ({
            match spec_derive_key(bytes@, version, index_size) {
                Ok(k) => r matches Ok(kv) && kv@ == k,
                Err(e) => r == Err::<Vec<u8>, PfsError>(e),
            }
        }),
{
    if version != VERSION_OBFUSCATED {
        return Ok(Vec::new());
    }
    if bytes.len() < 7 || bytes.len() - 7 < index_size as usize {
        return Err(PfsError::Io);
    }
    let region = slice_to_vec(slice_subrange(bytes.as_slice(), 7, 7 + index_size as usize));
    Ok(sha1_digest(&region))
}

/// Extracts one entry's plaintext: a positioned read of exactly `size`
/// bytes at `offset`, then the XOR stream.
pub fn extract_entry(bytes: &Vec<u8>, entry: &IndexEntry, key: &Vec<u8>) -> (r: Result<
    Vec<u8>,
    PfsError,
>)
    ensures
        ({
            match spec_extract_entry(bytes@, entry@, key@) {
                Ok(data) => r matches Ok(v) && v@ == data,
                Err(e) => r == Err::<Vec<u8>, PfsError>(e),
            }
        }),
{
    let off = entry.offset as usize;
    let sz = entry.size as usize;
    if bytes.len() < off || bytes.len() - off < sz {
        return Err(PfsError::Io);
    }
    let mut buf = slice_to_vec(slice_subrange(bytes.as_slice(), off, off + sz));
    xor_crypt(&mut buf, key);
    Ok(buf)
}

/// Extracts every entry's plaintext in order, skipping entries whose
/// offset is the zero sentinel; the first failing read fails the whole
/// call.
pub fn extract(bytes: &Vec<u8>, entries: &Vec<IndexEntry>, key: &Vec<u8>) -> (r: Result<
    Vec<ArchiveFile>,
    PfsError,
>)
    ensures
        ({
            match spec_extract_all(bytes@, entry_models(entries@), key@) {
                Ok(files) => r matches Ok(v) && file_models(v@) == files,
                Err(e) => r == Err::<Vec<ArchiveFile>, PfsError>(e),
            }
        }),
{
    let ghost all = entry_models(entries@);
    let mut out: Vec<ArchiveFile> = Vec::new();
    let mut i: usize = 0;
    let n = entries.len();
    proof {
        assert(all.skip(0) =~= all);
        assert(forall|s: Seq<ArchiveFileModel>|
            Seq::<ArchiveFileModel>::empty() + s =~= s);
    }
    while i < n
        invariant
            all == entry_models(entries@),
            n == entries@.len(),
            i <= n,
            (match spec_extract_all(bytes@, all.skip(i as int), key@) {
                Ok(rest) => spec_extract_all(bytes@, all, key@) == Ok::<
                    Seq<ArchiveFileModel>,
                    PfsError,
                >(file_models(out@) + rest),
                Err(e) => spec_extract_all(bytes@, all, key@) == Err::<
                    Seq<ArchiveFileModel>,
                    PfsError,
                >(e),
            }),
        decreases n - i,
    {
        let ghost suffix = all.skip(i as int);
        proof {
            assert(suffix[0] == all[i as int]);
            assert(suffix.drop_first() =~= all.skip(i as int + 1));
            assert(entries@[i as int]@ == all[i as int]);
        }
        let entry = &entries[i];
        if entry.offset != 0 {
            let data = match extract_entry(bytes, entry, key) {
                Ok(d) => d,
                Err(e) => {
                    return Err(e);
                },
            };
            let path_copy = slice_to_vec(entry.path.as_slice());
            let ghost out0 = out@;
            out.push(ArchiveFile { path: path_copy, data });
            proof {
                assert(file_models(out@) =~= file_models(out0) + seq![
                    ArchiveFileModel { path: all[i as int].path, data: out@[out@.len() - 1].data@ },
                ]);
                assert(forall|a: Seq<ArchiveFileModel>, b: Seq<ArchiveFileModel>, c: Seq<
                    ArchiveFileModel,
                >| (a + b) + c =~= a + (b + c));
            }
        }
        i = i + 1;
    }
    proof {
        assert(all.skip(n as int) =~= Seq::<IndexEntryModel>::empty());
        assert(file_models(out@) + Seq::<ArchiveFileModel>::empty() =~= file_models(out@));
    }
    Ok(out)
}

/// Reads an archive end to end: header, index, key derivation, and every
/// payload, returning the extracted files in entry order.
pub fn unpack(bytes: &Vec<u8>) -> (r: Result<Vec<ArchiveFile>, PfsError>)
    ensures
        ({
            match spec_unpack(bytes@) {
                Ok(files) => r matches Ok(v) && file_models(v@) == files,
                Err(e) => r == Err::<Vec<ArchiveFile>, PfsError>(e),
            }
        }),
{
    let header = match read_header(bytes) {
        Ok(h) => h,
        Err(e) => {
            return Err(e);
        },
    };
    let entries = match read_index(bytes, &header) {
        Ok(v) => v,
        Err(e) => {
            return Err(e);
        },
    };
    let key = match derive_key(bytes, header.pack_version, header.index_size) {
        Ok(k) => k,
        Err(e) => {
            return Err(e);
        },
    };
    extract(bytes, &entries, &key)
}

/// What `get_info` reports of an archive: the header, and the parsed index
/// when details were asked for.
pub struct ArchiveInfo {
    /// The validated header.
    pub header: ArchiveHeader,
    /// The parsed index entries, present when details were asked for.
    pub entries: Option<Vec<IndexEntry>>,
}

/// Reads an archive's header, and its index when `verbose` asks for the
/// per-entry details.
pub fn get_info(bytes: &Vec<u8>, verbose: bool) -> (r: Result<ArchiveInfo, PfsError>)
    ensures
        ({
            match parse_header(bytes@) {
                Err(e) => r == Err::<ArchiveInfo, PfsError>(e),
                Ok(h) => {
                    if !verbose {
                        r matches Ok(info) && info.header == h && info.entries is None
                    } else {
                        match parse_index(bytes@, h) {
                            Err(e) => r == Err::<ArchiveInfo, PfsError>(e),
                            Ok((models, end)) => r matches Ok(info) && info.header == h
                                && (info.entries matches Some(v) && entry_models(v@) == models),
                        }
                    }
                },
            }
        }),
{
    let header = match read_header(bytes) {
        Ok(h) => h,
        Err(e) => {
            return Err(e);
        },
    };
    if !verbose {
        return Ok(ArchiveInfo { header, entries: None });
    }
    let entries = match read_index(bytes, &header) {
        Ok(v) => v,
        Err(e) => {
            return Err(e);
        },
    };
    Ok(ArchiveInfo { header, entries: Some(entries) })
}

} // verus!
