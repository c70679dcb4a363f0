//! The archive writer: index layout arithmetic, byte-exact emission of
//! header, index and trailing offset table, and the payload region,
//! XOR-obfuscated for version `'8'`.
//!
//! The layout of an archive over files `es` is fixed by the format:
//!
//! * bytes 0..7: magic, the ASCII version digit, and the index size;
//! * the index region, `index_size_val(es)` bytes from offset 7: the primary
//!   file count, one record per file (path length, wire path, a reserved
//!   word, absolute offset, size), the secondary count `n + 1`, the trailing
//!   offset table, two reserved words, and the table position;
//! * the payload region: each file's bytes in order, packed with no gaps.
use vstd::prelude::*;

use crate::codec::wire_separated;
use crate::codec::xor_with_key;
use crate::hash::sha1_of;
use crate::hash::sha1_digest;
use crate::utf8check::validate_utf8;
use crate::ArchiveFile;
use crate::ArchiveFileModel;
use crate::IndexEntry;
use crate::PfsError;
use crate::file_models;
use crate::MAGIC0;
use crate::MAGIC1;
use vstd::bytes::spec_u32_to_le_bytes;
use vstd::bytes::spec_u32_from_le_bytes;
use vstd::bytes::lemma_auto_spec_u32_to_from_le_bytes;
use vstd::bytes::u32_to_le_bytes;
use vstd::utf8::valid_utf8;

verus! {

/// The ASCII digit `'6'`, the plain archive version.
pub const VERSION_PLAIN: u8 = 0x36;

/// The ASCII digit `'8'`, the XOR-obfuscated archive version.
pub const VERSION_OBFUSCATED: u8 = 0x38;

/// Bytes a file adds to the record part of the index: path length word,
/// path bytes, reserved word, offset word, size word.
pub open spec fn rec_len(f: ArchiveFileModel) -> int {
    16 + f.path.len() as int
}

/// Bytes of the first `i` files' records.
pub open spec fn sum_rec(es: Seq<ArchiveFileModel>, i: int) -> int
    decreases i,
{
    if i <= 0 {
        0
    } else {
        sum_rec(es, i - 1) + rec_len(es[i - 1])
    }
}

/// Position of the trailing offset table within the index region: the
/// primary count word plus every record.
pub open spec fn table_pos_val(es: Seq<ArchiveFileModel>) -> int {
    4 + sum_rec(es, es.len() as int)
}

/// Total byte length of the index region: the records, then eight bytes of
/// trailing table per file, the secondary count, two reserved words, and
/// the table position word.
pub open spec fn index_size_val(es: Seq<ArchiveFileModel>) -> int {
    table_pos_val(es) + 8 * es.len() + 16
}

/// Bytes of the first `i` files' payloads.
pub open spec fn payload_sum(es: Seq<ArchiveFileModel>, i: int) -> int
    decreases i,
{
    if i <= 0 {
        0
    } else {
        payload_sum(es, i - 1) + es[i - 1].data.len()
    }
}

/// Absolute offset of file `i`'s payload within the archive: the seven
/// header bytes before the index region, the index region, and every
/// earlier payload.
pub open spec fn abs_offset(es: Seq<ArchiveFileModel>, i: int) -> int {
    7 + index_size_val(es) + payload_sum(es, i)
}

/// The `index` field recorded for file `i` in the trailing table: the
/// index region position just past the entry's path bytes.
pub open spec fn entry_index_val(es: Seq<ArchiveFileModel>, i: int) -> int {
    8 + sum_rec(es, i) + es[i].path.len()
}

/// Whether the archive over `es` fits the format's 4-byte fields: every
/// absolute offset, the index size, and both counts stay within `u32`.
pub open spec fn layout_fits(es: Seq<ArchiveFileModel>) -> bool {
    &&& es.len() + 1 <= u32::MAX
    &&& 7 + index_size_val(es) + payload_sum(es, es.len() as int) <= u32::MAX
}

/// Every path is valid UTF-8, the writer's string constraint.
pub open spec fn all_paths_utf8(es: Seq<ArchiveFileModel>) -> bool {
    forall|i: int| 0 <= i < es.len() ==> valid_utf8(#[trigger] es[i].path)
}

/// The 4-byte little-endian form of a layout value.
pub open spec fn u32le(v: int) -> Seq<u8> {
    spec_u32_to_le_bytes(v as u32)
}

/// `n` zero bytes, the reserved fields of the format.
pub open spec fn zero_bytes(n: int) -> Seq<u8> {
    Seq::new(n as nat, |i: int| 0u8)
}

/// The index record of file `i`: path length, wire path, reserved word,
/// absolute offset, size.
pub open spec fn record_bytes(es: Seq<ArchiveFileModel>, i: int) -> Seq<u8> {
    u32le(es[i].path.len() as int) + wire_separated(es[i].path) + zero_bytes(4) + u32le(
        abs_offset(es, i),
    ) + u32le(es[i].data.len() as int)
}

/// The records of files `i..`, concatenated.
pub open spec fn records_from(es: Seq<ArchiveFileModel>, i: int) -> Seq<u8>
    decreases es.len() - i,
{
    if 0 <= i < es.len() {
        record_bytes(es, i) + records_from(es, i + 1)
    } else {
        Seq::<u8>::empty()
    }
}

/// File `i`'s eight bytes of the trailing offset table: its `index` value
/// and a reserved word.
pub open spec fn table_entry_bytes(es: Seq<ArchiveFileModel>, i: int) -> Seq<u8> {
    u32le(entry_index_val(es, i)) + zero_bytes(4)
}

/// The trailing table rows of files `i..`, concatenated.
pub open spec fn table_from(es: Seq<ArchiveFileModel>, i: int) -> Seq<u8>
    decreases es.len() - i,
{
    if 0 <= i < es.len() {
        table_entry_bytes(es, i) + table_from(es, i + 1)
    } else {
        Seq::<u8>::empty()
    }
}

/// The whole index region: primary count, records, secondary count,
/// trailing table, two reserved words, table position. These are exactly
/// the bytes hashed for the version `'8'` key.
pub open spec fn index_region_bytes(es: Seq<ArchiveFileModel>) -> Seq<u8> {
    u32le(es.len() as int) + records_from(es, 0) + u32le(es.len() as int + 1) + table_from(es, 0)
        + zero_bytes(8) + u32le(table_pos_val(es))
}

/// The obfuscation key of an archive: the SHA-1 digest of the index region
/// for version `'8'`, empty (a no-op key) otherwise.
pub open spec fn key_for(es: Seq<ArchiveFileModel>, version: u8) -> Seq<u8> {
    if version == VERSION_OBFUSCATED {
        sha1_of(index_region_bytes(es))
    } else {
        Seq::<u8>::empty()
    }
}

/// The payloads of files `i..`, each XOR-obfuscated with `key`,
/// concatenated.
pub open spec fn payloads_from(es: Seq<ArchiveFileModel>, i: int, key: Seq<u8>) -> Seq<u8>
    decreases es.len() - i,
{
    if 0 <= i < es.len() {
        xor_with_key(es[i].data, key) + payloads_from(es, i + 1, key)
    } else {
        Seq::<u8>::empty()
    }
}

/// The complete archive over `es` for a version byte: magic, version
/// digit, index size, index region, payload region.
pub open spec fn archive_bytes(es: Seq<ArchiveFileModel>, version: u8) -> Seq<u8> {
    seq![MAGIC0, MAGIC1, version] + u32le(index_size_val(es)) + index_region_bytes(es)
        + payloads_from(es, 0, key_for(es, version))
}

/// Whether a requested pack version has a defined layout: `6`, `8`, or the
/// default (`6`).
pub open spec fn version_ok(version: Option<u8>) -> bool {
    version is None || version == Some(6u8) || version == Some(8u8)
}

/// The ASCII version digit written for a requested pack version.
pub open spec fn version_ascii(version: Option<u8>) -> u8 {
    if version == Some(8u8) {
        VERSION_OBFUSCATED
    } else {
        VERSION_PLAIN
    }
}

/// Record sums grow with the file index.
pub proof fn lemma_sum_rec_mono(es: Seq<ArchiveFileModel>, i: int, j: int)
    requires
        0 <= i <= j,
    ensures
        sum_rec(es, i) <= sum_rec(es, j),
        sum_rec(es, i) >= 0,
    decreases j,
{
    if j > i {
        lemma_sum_rec_mono(es, i, j - 1);
    } else if i > 0 {
        lemma_sum_rec_mono(es, i - 1, i - 1);
    }
}

/// Payload sums grow with the file index.
pub proof fn lemma_payload_sum_mono(es: Seq<ArchiveFileModel>, i: int, j: int)
    requires
        0 <= i <= j,
    ensures
        payload_sum(es, i) <= payload_sum(es, j),
        payload_sum(es, i) >= 0,
    decreases j,
{
    if j > i {
        lemma_payload_sum_mono(es, i, j - 1);
    } else if i > 0 {
        lemma_payload_sum_mono(es, i - 1, i - 1);
    }
}

/// The partial sums and per-file fields of a layout that fits all stay
/// within `u32`.
pub proof fn lemma_layout_bounds(es: Seq<ArchiveFileModel>, i: int)
    requires
        layout_fits(es),
        0 <= i <= es.len(),
    ensures
        0 <= sum_rec(es, i) <= sum_rec(es, es.len() as int),
        0 <= payload_sum(es, i) <= payload_sum(es, es.len() as int),
        4 + sum_rec(es, es.len() as int) == table_pos_val(es),
        7 + index_size_val(es) + payload_sum(es, es.len() as int) <= u32::MAX,
        i < es.len() ==> sum_rec(es, i + 1) == sum_rec(es, i) + 16 + es[i].path.len(),
        i < es.len() ==> payload_sum(es, i + 1) == payload_sum(es, i) + es[i].data.len(),
        i < es.len() ==> sum_rec(es, i + 1) <= sum_rec(es, es.len() as int),
        i < es.len() ==> payload_sum(es, i + 1) <= payload_sum(es, es.len() as int),
        i < es.len() ==> es[i].path.len() <= u32::MAX,
        i < es.len() ==> es[i].data.len() <= u32::MAX,
{
    lemma_sum_rec_mono(es, i, es.len() as int);
    lemma_payload_sum_mono(es, i, es.len() as int);
    if i < es.len() {
        lemma_sum_rec_mono(es, i + 1, es.len() as int);
        lemma_payload_sum_mono(es, i + 1, es.len() as int);
        lemma_sum_rec_mono(es, 0, i);
        lemma_payload_sum_mono(es, 0, i);
    }
}

/// Little-endian words are four bytes long and decode back to the value
/// they encode.
pub proof fn lemma_u32le(v: int)
    ensures
        u32le(v).len() == 4,
        0 <= v <= u32::MAX ==> spec_u32_from_le_bytes(u32le(v)) == v,
{
    lemma_auto_spec_u32_to_from_le_bytes();
    assert(spec_u32_to_le_bytes(v as u32).len() == 4);
    if 0 <= v <= u32::MAX {
        assert(spec_u32_from_le_bytes(spec_u32_to_le_bytes(v as u32)) == v as u32);
        assert((v as u32) as int == v);
    }
}

/// The records of files `i..` take the record bytes of each.
pub proof fn lemma_records_from_len(es: Seq<ArchiveFileModel>, i: int)
    requires
        0 <= i <= es.len(),
    ensures
        records_from(es, i).len() == sum_rec(es, es.len() as int) - sum_rec(es, i),
    decreases es.len() - i,
{
    if i < es.len() {
        lemma_records_from_len(es, i + 1);
        lemma_u32le(es[i].path.len() as int);
        lemma_u32le(abs_offset(es, i));
        lemma_u32le(es[i].data.len() as int);
        assert(sum_rec(es, i + 1) == sum_rec(es, i) + rec_len(es[i]));
    }
}

/// The trailing table rows of files `i..` take eight bytes each.
pub proof fn lemma_table_from_len(es: Seq<ArchiveFileModel>, i: int)
    requires
        0 <= i <= es.len(),
    ensures
        table_from(es, i).len() == 8 * (es.len() - i),
    decreases es.len() - i,
{
    if i < es.len() {
        lemma_table_from_len(es, i + 1);
        lemma_u32le(entry_index_val(es, i));
    }
}

/// The index region is exactly `index_size_val` bytes long.
pub proof fn lemma_index_region_len(es: Seq<ArchiveFileModel>)
    ensures
        index_region_bytes(es).len() == index_size_val(es),
{
    lemma_records_from_len(es, 0);
    lemma_table_from_len(es, 0);
    lemma_u32le(es.len() as int);
    lemma_u32le(es.len() as int + 1);
    lemma_u32le(table_pos_val(es));
}

/// The payloads of files `i..` take the payload bytes of each; the XOR
/// stream never changes a length.
pub proof fn lemma_payloads_from_len(es: Seq<ArchiveFileModel>, i: int, key: Seq<u8>)
    requires
        0 <= i <= es.len(),
    ensures
        payloads_from(es, i, key).len() == payload_sum(es, es.len() as int) - payload_sum(es, i),
    decreases es.len() - i,
{
    if i < es.len() {
        lemma_payloads_from_len(es, i + 1, key);
    }
}

/// An archive's total length: header, index region, payload region.
pub proof fn lemma_archive_len(es: Seq<ArchiveFileModel>, version: u8)
    ensures
        archive_bytes(es, version).len() == 7 + index_size_val(es) + payload_sum(
            es,
            es.len() as int,
        ),
{
    lemma_index_region_len(es);
    lemma_payloads_from_len(es, 0, key_for(es, version));
    lemma_u32le(index_size_val(es));
}

/// Appends the 4-byte little-endian form of `v`.
fn push_u32(out: &mut Vec<u8>, v: u32)
    ensures
        final(out)@ == old(out)@ + u32le(v as int),
{
    let mut b = u32_to_le_bytes(v);
    out.append(&mut b);
}

/// `k` zero bytes, for the format's reserved fields.
fn zeros_vec(k: usize) -> (r: Vec<u8>)
    ensures
        r@ == zero_bytes(k as int),
{
    let mut out: Vec<u8> = Vec::new();
    let mut i: usize = 0;
    while i < k
        invariant
            i <= k,
            out@ == zero_bytes(i as int),
        decreases k - i,
    {
        out.push(0u8);
        assert(out@ =~= zero_bytes(i as int + 1));
        i += 1;
    }
    out
}

/// Returns whether the archive over `files` fits the format's 4-byte
/// fields; [`pack`] may only be called when it does.
pub fn layout_fits_check(files: &Vec<ArchiveFile>) -> (r: bool)
    ensures
        r == layout_fits(file_models(files@)),
{
    let ghost es = file_models(files@);
    let n = files.len();
    if n as u64 >= 0xffff_ffff {
        return false;
    }
    // total tracks 27 + 8 * n + sum_rec + payload_sum, which reaches
    // 7 + index_size_val + payload_sum after the last file.
    let mut total: u64 = 27 + 8 * (n as u64);
    let mut i: usize = 0;
    while i < n
        invariant
            es == file_models(files@),
            es.len() == n as int,
            n as int + 1 <= u32::MAX,
            i <= n,
            total as int == 27 + 8 * (n as int) + sum_rec(es, i as int) + payload_sum(
                es,
                i as int,
            ),
        decreases n - i,
    {
        proof {
            lemma_sum_rec_mono(es, 0, i as int);
            lemma_payload_sum_mono(es, 0, i as int);
        }
        if total > 0xffff_ffff {
            proof {
                lemma_sum_rec_mono(es, i as int, es.len() as int);
                lemma_payload_sum_mono(es, i as int, es.len() as int);
            }
            return false;
        }
        let f = &files[i];
        proof {
            assert(es[i as int] == files@[i as int]@);
        }
        if f.path.len() as u64 >= 0x1_0000_0000 || f.data.len() as u64 >= 0x1_0000_0000 {
            proof {
                lemma_sum_rec_mono(es, i as int + 1, es.len() as int);
                lemma_payload_sum_mono(es, i as int + 1, es.len() as int);
                lemma_sum_rec_mono(es, i as int, i as int);
                lemma_payload_sum_mono(es, i as int, i as int);
            }
            return false;
        }
        total = total + 16 + f.path.len() as u64 + f.data.len() as u64;
        i += 1;
    }
    proof {
        lemma_sum_rec_mono(es, 0, es.len() as int);
        lemma_payload_sum_mono(es, 0, es.len() as int);
    }
    total <= 0xffff_ffff
}

/// Computes the index layout of `files` in one pass: the total index size,
/// one entry per file carrying its absolute payload offset and size, and
/// the position of the trailing offset table. Nothing is emitted; the
/// writer needs the index size before the first byte.
pub fn calculate_index_size_and_entries(files: &Vec<ArchiveFile>) -> (r: (
    u32,
    Vec<IndexEntry>,
    u32,
))
    requires
        layout_fits(file_models(files@)),
    ensures
        ({
            let es = file_models(files@);
            &&& r.0 as int == index_size_val(es)
            &&& r.2 as int == table_pos_val(es)
            &&& r.1@.len() == es.len()
            &&& forall|i: int|
                0 <= i < es.len() ==> {
                    &&& (#[trigger] r.1@[i])@.path == es[i].path
                    &&& r.1@[i]@.offset as int == abs_offset(es, i)
                    &&& r.1@[i]@.size as int == es[i].data.len()
                }
        }),
{
    let ghost es = file_models(files@);
    let n = files.len();
    proof {
        lemma_layout_bounds(es, 0);
    }
    let mut sr: u32 = 0;
    let mut i: usize = 0;
    while i < n
        invariant
            es == file_models(files@),
            es.len() == n as int,
            layout_fits(es),
            i <= n,
            sr as int == sum_rec(es, i as int),
        decreases n - i,
    {
        proof {
            lemma_layout_bounds(es, i as int);
            assert(es[i as int] == files@[i as int]@);
        }
        let f = &files[i];
        sr = sr + 16 + f.path.len() as u32;
        i += 1;
    }
    let table_pos: u32 = 4 + sr;
    proof {
        lemma_layout_bounds(es, 0);
        assert(8 * (n as int) + 16 + 4 + sum_rec(es, es.len() as int) == index_size_val(es));
    }
    let index_size: u32 = table_pos + 8 * (n as u32) + 16;
    let mut entries: Vec<IndexEntry> = Vec::new();
    let mut pay: u32 = 0;
    i = 0;
    while i < n
        invariant
            es == file_models(files@),
            es.len() == n as int,
            layout_fits(es),
            index_size as int == index_size_val(es),
            i <= n,
            pay as int == payload_sum(es, i as int),
            entries@.len() == i,
            forall|j: int|
                0 <= j < i ==> {
                    &&& (#[trigger] entries@[j])@.path == es[j].path
                    &&& entries@[j]@.offset as int == abs_offset(es, j)
                    &&& entries@[j]@.size as int == es[j].data.len()
                },
        decreases n - i,
    {
        proof {
            lemma_layout_bounds(es, i as int);
            assert(es[i as int] == files@[i as int]@);
        }
        let f = &files[i];
        let path_copy = vstd::slice::slice_to_vec(f.path.as_slice());
        let size = f.data.len() as u32;
        let offset: u32 = 7 + index_size + pay;
        entries.push(IndexEntry { path: path_copy, offset, size });
        pay = pay + size;
        i += 1;
    }
    (index_size, entries, table_pos)
}

/// Emits the index region of `files`: exactly the bytes the version `'8'`
/// key is the digest of.
fn build_index_region(files: &Vec<ArchiveFile>, index_size: u32) -> (r: Vec<u8>)
    requires
        layout_fits(file_models(files@)),
        index_size as int == index_size_val(file_models(files@)),
    ensures
        r@ == index_region_bytes(file_models(files@)),
{
    let ghost es = file_models(files@);
    let n = files.len();
    proof {
        lemma_layout_bounds(es, 0);
    }
    let mut out: Vec<u8> = Vec::new();
    push_u32(&mut out, n as u32);
    let mut i: usize = 0;
    let mut pay: u32 = 0;
    while i < n
        invariant
            es == file_models(files@),
            es.len() == n as int,
            n == files@.len(),
            layout_fits(es),
            index_size as int == index_size_val(es),
            i <= n,
            pay as int == payload_sum(es, i as int),
            out@ + records_from(es, i as int) == u32le(n as int) + records_from(es, 0),
        decreases n - i,
    {
        proof {
            lemma_layout_bounds(es, i as int);
            assert(es[i as int] == files@[i as int]@);
        }
        let ghost out0 = out@;
        let f = &files[i];
        let mut wire = crate::codec::to_wire_separators(&f.path);
        push_u32(&mut out, f.path.len() as u32);
        out.append(&mut wire);
        let mut reserved = zeros_vec(4);
        out.append(&mut reserved);
        push_u32(&mut out, 7 + index_size + pay);
        push_u32(&mut out, f.data.len() as u32);
        proof {
            assert(out@ =~= out0 + record_bytes(es, i as int));
            assert(out@ + records_from(es, i as int + 1) =~= out0 + records_from(es, i as int));
        }
        pay = pay + f.data.len() as u32;
        i += 1;
    }
    proof {
        assert(out@ + records_from(es, n as int) =~= out@);
    }
    let ghost with_records = u32le(n as int) + records_from(es, 0);
    push_u32(&mut out, n as u32 + 1);
    let ghost head = with_records + u32le(n as int + 1);
    assert(out@ == head);
    let mut sr: u32 = 0;
    i = 0;
    while i < n
        invariant
            es == file_models(files@),
            es.len() == n as int,
            n == files@.len(),
            layout_fits(es),
            i <= n,
            sr as int == sum_rec(es, i as int),
            out@ + table_from(es, i as int) == head + table_from(es, 0),
        decreases n - i,
    {
        proof {
            lemma_layout_bounds(es, i as int);
            assert(es[i as int] == files@[i as int]@);
            lemma_sum_rec_mono(es, i as int + 1, es.len() as int);
        }
        let ghost out0 = out@;
        let f = &files[i];
        push_u32(&mut out, 8 + sr + f.path.len() as u32);
        let mut reserved = zeros_vec(4);
        out.append(&mut reserved);
        proof {
            assert(out@ =~= out0 + table_entry_bytes(es, i as int));
            assert(out@ + table_from(es, i as int + 1) =~= out0 + table_from(es, i as int));
        }
        sr = sr + 16 + f.path.len() as u32;
        i += 1;
    }
    proof {
        assert(out@ + table_from(es, n as int) =~= out@);
    }
    let mut reserved = zeros_vec(8);
    out.append(&mut reserved);
    push_u32(&mut out, 4 + sr);
    proof {
        assert(out@ =~= index_region_bytes(es));
    }
    out
}

/// Builds the complete archive over `files` for the requested version:
/// `Some(6)` or `None` for the plain layout, `Some(8)` for the
/// XOR-obfuscated one. Any other version has no defined layout and is
/// refused; so is a file whose path is not valid UTF-8.
pub fn pack(files: &Vec<ArchiveFile>, version: Option<u8>) -> (r: Result<Vec<u8>, PfsError>)
    requires
        layout_fits(file_models(files@)),
    ensures
        ({
            let es = file_models(files@);
            &&& !version_ok(version) ==> r == Err::<Vec<u8>, PfsError>(
                PfsError::UnsupportedVersion,
            )
            &&& version_ok(version) && !all_paths_utf8(es) ==> r == Err::<Vec<u8>, PfsError>(
                PfsError::InvalidEncoding,
            )
            &&& version_ok(version) && all_paths_utf8(es) ==> (r matches Ok(b) && b@
                == archive_bytes(es, version_ascii(version)))
        }),
{
    let ghost es = file_models(files@);
    let vb: u8 = match version {
        Option::None => VERSION_PLAIN,
        Option::Some(v) => {
            if v == 6 {
                VERSION_PLAIN
            } else if v == 8 {
                VERSION_OBFUSCATED
            } else {
                return Err(PfsError::UnsupportedVersion);
            }
        },
    };
    assert(version_ok(version) && vb == version_ascii(version));
    let n = files.len();
    let mut i: usize = 0;
    while i < n
        invariant
            es == file_models(files@),
            es.len() == n as int,
            i <= n,
            version_ok(version),
            vb == version_ascii(version),
            forall|j: int| 0 <= j < i ==> valid_utf8(#[trigger] es[j].path),
        decreases n - i,
    {
        proof {
            assert(es[i as int] == files@[i as int]@);
        }
        if !validate_utf8(&files[i].path) {
            proof {
                assert(!valid_utf8(es[i as int].path));
                assert(!all_paths_utf8(es));
            }
            return Err(PfsError::InvalidEncoding);
        }
        i += 1;
    }
    assert(all_paths_utf8(es));
    let layout = calculate_index_size_and_entries(files);
    let index_size = layout.0;
    let region = build_index_region(files, index_size);
    let key: Vec<u8> = if vb == VERSION_OBFUSCATED {
        sha1_digest(&region)
    } else {
        Vec::new()
    };
    proof {
        assert(key@ == key_for(es, vb));
        lemma_layout_bounds(es, 0);
    }
    let mut out: Vec<u8> = Vec::new();
    out.push(MAGIC0);
    out.push(MAGIC1);
    out.push(vb);
    push_u32(&mut out, index_size);
    let mut region_buf = region;
    out.append(&mut region_buf);
    proof {
        assert(out@ =~= seq![MAGIC0, MAGIC1, vb] + u32le(index_size_val(es))
            + index_region_bytes(es));
    }
    let ghost head = out@;
    i = 0;
    while i < n
        invariant
            es == file_models(files@),
            es.len() == n as int,
            i <= n,
            out@ + payloads_from(es, i as int, key@) == head + payloads_from(es, 0, key@),
        decreases n - i,
    {
        proof {
            assert(es[i as int] == files@[i as int]@);
        }
        let ghost out0 = out@;
        let f = &files[i];
        let mut buf = vstd::slice::slice_to_vec(f.data.as_slice());
        crate::codec::xor_crypt(&mut buf, &key);
        out.append(&mut buf);
        proof {
            assert(out@ + payloads_from(es, i as int + 1, key@) =~= out0 + payloads_from(
                es,
                i as int,
                key@,
            ));
        }
        i += 1;
    }
    proof {
        assert(out@ + payloads_from(es, n as int, key@) =~= out@);
        assert(out@ =~= archive_bytes(es, vb));
    }
    Ok(out)
}

} // verus!
