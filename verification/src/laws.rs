//! The laws that tie the writer and the reader together: reading a packed
//! archive gives back exactly the files that were packed, packing is
//! deterministic, and extraction ignores sentinel entries.
use vstd::prelude::*;

use crate::codec::host_separated;
use crate::codec::lemma_separator_round_trip;
use crate::codec::lemma_xor_with_key_involutive;
use crate::codec::wire_separated;
use crate::codec::xor_with_key;
use crate::codec::SEP_WIRE;
use crate::pack::abs_offset;
use crate::pack::all_paths_utf8;
use crate::pack::archive_bytes;
use crate::pack::index_region_bytes;
use crate::pack::index_size_val;
use crate::pack::key_for;
use crate::pack::layout_fits;
use crate::pack::lemma_archive_len;
use crate::pack::lemma_index_region_len;
use crate::pack::lemma_layout_bounds;
use crate::pack::lemma_payload_sum_mono;
use crate::pack::lemma_payloads_from_len;
use crate::pack::lemma_records_from_len;
use crate::pack::lemma_sum_rec_mono;
use crate::pack::lemma_u32le;
use crate::pack::payload_sum;
use crate::pack::payloads_from;
use crate::pack::rec_len;
use crate::pack::record_bytes;
use crate::pack::records_from;
use crate::pack::sum_rec;
use crate::pack::u32le;
use crate::pack::version_ascii;
use crate::pack::version_ok;
use crate::pack::VERSION_OBFUSCATED;
use crate::pack::VERSION_PLAIN;
use crate::unpack::header_len;
use crate::unpack::le32_at;
use crate::unpack::parse_entries;
use crate::unpack::parse_entry;
use crate::unpack::parse_header;
use crate::unpack::parse_index;
use crate::unpack::reserved_len;
use crate::unpack::spec_derive_key;
use crate::unpack::spec_extract_all;
use crate::unpack::spec_extract_entry;
use crate::unpack::spec_unpack;
use crate::utf8check::lemma_wire_separated_valid_utf8;
use crate::ArchiveFileModel;
use crate::ArchiveHeader;
use crate::IndexEntryModel;
use crate::PfsError;

verus! {

/// A path in the in-memory form: no backslash, so the trip through the
/// wire's backslash form is reversible.
pub open spec fn host_form(p: Seq<u8>) -> bool {
    forall|j: int| 0 <= j < p.len() ==> p[j] != SEP_WIRE
}

/// What the round trip asks of a file list: the layout fits the format's
/// 4-byte fields, and every path is UTF-8 in the in-memory form.
pub open spec fn packable(es: Seq<ArchiveFileModel>) -> bool {
    &&& layout_fits(es)
    &&& all_paths_utf8(es)
    &&& forall|i: int| 0 <= i < es.len() ==> host_form(#[trigger] es[i].path)
}

/// The index entries a packed archive's reader sees: the original path,
/// the absolute payload offset, the payload size.
pub open spec fn packed_entry_models(es: Seq<ArchiveFileModel>) -> Seq<IndexEntryModel> {
    Seq::new(
        es.len(),
        |i: int|
            IndexEntryModel {
                path: es[i].path,
                offset: abs_offset(es, i) as u32,
                size: es[i].data.len() as u32,
            },
    )
}

/// The header a packed archive's reader sees.
pub open spec fn packed_header(es: Seq<ArchiveFileModel>, version: u8) -> ArchiveHeader {
    ArchiveHeader {
        pack_version: version,
        index_size: index_size_val(es) as u32,
        file_count: es.len() as u32,
    }
}

/// A record is as long as its five fields.
proof fn lemma_record_bytes_len(es: Seq<ArchiveFileModel>, i: int)
    requires
        0 <= i < es.len(),
    ensures
        record_bytes(es, i).len() == rec_len(es[i]),
{
    lemma_u32le(es[i].path.len() as int);
    lemma_u32le(abs_offset(es, i));
    lemma_u32le(es[i].data.len() as int);
}

/// Record `i` sits inside the records of files `j..` at the offset its
/// predecessors leave it.
proof fn lemma_records_at(es: Seq<ArchiveFileModel>, j: int, i: int)
    requires
        0 <= j <= i < es.len(),
    ensures
        ({
            let lo = sum_rec(es, i) - sum_rec(es, j);
            records_from(es, j).subrange(lo, lo + rec_len(es[i])) == record_bytes(es, i)
        }),
    decreases i - j,
{
    lemma_records_from_len(es, j);
    lemma_records_from_len(es, j + 1);
    lemma_record_bytes_len(es, j);
    lemma_record_bytes_len(es, i);
    lemma_sum_rec_mono(es, j, i);
    lemma_sum_rec_mono(es, i + 1, es.len() as int);
    let a = record_bytes(es, j);
    let b = records_from(es, j + 1);
    let lo = sum_rec(es, i) - sum_rec(es, j);
    if i == j {
        assert((a + b).subrange(lo, lo + rec_len(es[i])) =~= a);
    } else {
        lemma_records_at(es, j + 1, i);
        lemma_sum_rec_mono(es, j + 1, i);
        let lo2 = sum_rec(es, i) - sum_rec(es, j + 1);
        assert((a + b).subrange(lo, lo + rec_len(es[i])) =~= b.subrange(
            lo2,
            lo2 + rec_len(es[i]),
        ));
    }
}

/// Payload `i` sits inside the payloads of files `j..` at the offset its
/// predecessors leave it.
proof fn lemma_payloads_at(es: Seq<ArchiveFileModel>, j: int, i: int, key: Seq<u8>)
    requires
        0 <= j <= i < es.len(),
    ensures
        ({
            let lo = payload_sum(es, i) - payload_sum(es, j);
            payloads_from(es, j, key).subrange(lo, lo + es[i].data.len()) == xor_with_key(
                es[i].data,
                key,
            )
        }),
    decreases i - j,
{
    lemma_payloads_from_len(es, j, key);
    lemma_payloads_from_len(es, j + 1, key);
    lemma_payload_sum_mono(es, j, i);
    lemma_payload_sum_mono(es, i + 1, es.len() as int);
    let a = xor_with_key(es[j].data, key);
    let b = payloads_from(es, j + 1, key);
    let lo = payload_sum(es, i) - payload_sum(es, j);
    if i == j {
        assert((a + b).subrange(lo, lo + es[i].data.len()) =~= a);
    } else {
        lemma_payloads_at(es, j + 1, i, key);
        lemma_payload_sum_mono(es, j + 1, i);
        let lo2 = payload_sum(es, i) - payload_sum(es, j + 1);
        assert((a + b).subrange(lo, lo + es[i].data.len()) =~= b.subrange(
            lo2,
            lo2 + es[i].data.len(),
        ));
    }
}

/// The bytes from offset 7 of a packed archive, `index_size_val` of them,
/// are the index region — the range the reader hashes for the key.
proof fn lemma_archive_region(es: Seq<ArchiveFileModel>, vb: u8)
    ensures
        archive_bytes(es, vb).subrange(7, 7 + index_size_val(es)) == index_region_bytes(es),
{
    let b = archive_bytes(es, vb);
    lemma_archive_len(es, vb);
    lemma_index_region_len(es);
    lemma_u32le(index_size_val(es));
    lemma_payloads_from_len(es, 0, key_for(es, vb));
    lemma_payload_sum_mono(es, 0, es.len() as int);
    assert(b.subrange(7, 7 + index_size_val(es)) =~= index_region_bytes(es));
}

/// The records inside the index region start right after the primary
/// count word.
proof fn lemma_region_records(es: Seq<ArchiveFileModel>)
    ensures
        index_region_bytes(es).subrange(4, 4 + sum_rec(es, es.len() as int)) == records_from(
            es,
            0,
        ),
{
    lemma_index_region_len(es);
    lemma_records_from_len(es, 0);
    lemma_u32le(es.len() as int);
    lemma_sum_rec_mono(es, 0, es.len() as int);
    assert(index_region_bytes(es).subrange(4, 4 + sum_rec(es, es.len() as int)) =~= records_from(
        es,
        0,
    ));
}

/// Record `i` of a packed archive sits at absolute position
/// `11 + sum_rec(es, i)`.
proof fn lemma_archive_record_at(es: Seq<ArchiveFileModel>, vb: u8, i: int)
    requires
        0 <= i < es.len(),
    ensures
        ({
            let p = 11 + sum_rec(es, i);
            archive_bytes(es, vb).subrange(p, p + rec_len(es[i])) == record_bytes(es, i)
        }),
{
    let b = archive_bytes(es, vb);
    let r = index_region_bytes(es);
    let si = sum_rec(es, i);
    let n = es.len() as int;
    let ln = rec_len(es[i]);
    lemma_archive_region(es, vb);
    lemma_region_records(es);
    lemma_records_at(es, 0, i);
    lemma_record_bytes_len(es, i);
    lemma_archive_len(es, vb);
    lemma_index_region_len(es);
    lemma_records_from_len(es, 0);
    lemma_sum_rec_mono(es, 0, i);
    lemma_sum_rec_mono(es, i + 1, n);
    lemma_payload_sum_mono(es, 0, n);
    // The record inside the region, then the region inside the archive.
    assert(r.subrange(4 + si, 4 + si + ln) =~= r.subrange(4, 4 + sum_rec(es, n)).subrange(
        si,
        si + ln,
    ));
    assert(b.subrange(11 + si, 11 + si + ln) =~= r.subrange(4 + si, 4 + si + ln));
}

/// Payload `i` of a packed archive sits at its absolute offset.
proof fn lemma_archive_payload_at(es: Seq<ArchiveFileModel>, vb: u8, i: int)
    requires
        0 <= i < es.len(),
    ensures
        ({
            let p = abs_offset(es, i);
            archive_bytes(es, vb).subrange(p, p + es[i].data.len()) == xor_with_key(
                es[i].data,
                key_for(es, vb),
            )
        }),
{
    let b = archive_bytes(es, vb);
    let key = key_for(es, vb);
    let p = abs_offset(es, i);
    lemma_archive_len(es, vb);
    lemma_index_region_len(es);
    lemma_u32le(index_size_val(es));
    lemma_payloads_from_len(es, 0, key);
    lemma_payloads_at(es, 0, i, key);
    lemma_payload_sum_mono(es, 0, i);
    lemma_payload_sum_mono(es, i + 1, es.len() as int);
    assert(b.subrange(p, p + es[i].data.len()) =~= payloads_from(es, 0, key).subrange(
        payload_sum(es, i),
        payload_sum(es, i) + es[i].data.len(),
    ));
}

/// The reader accepts a packed archive's header and reads back the
/// version, the index size and the file count the writer computed.
proof fn lemma_parse_header_of_packed(es: Seq<ArchiveFileModel>, vb: u8)
    requires
        layout_fits(es),
        vb == VERSION_PLAIN || vb == VERSION_OBFUSCATED,
    ensures
        parse_header(archive_bytes(es, vb)) == Ok::<ArchiveHeader, PfsError>(
            packed_header(es, vb),
        ),
{
    let b = archive_bytes(es, vb);
    let r = index_region_bytes(es);
    let n = es.len() as int;
    lemma_archive_len(es, vb);
    lemma_index_region_len(es);
    lemma_layout_bounds(es, 0);
    lemma_u32le(index_size_val(es));
    lemma_u32le(n);
    lemma_archive_region(es, vb);
    lemma_records_from_len(es, 0);
    assert(b[0] == crate::MAGIC0 && b[1] == crate::MAGIC1 && b[2] == vb);
    assert(b.subrange(3, 7) =~= u32le(index_size_val(es)));
    assert(header_len(vb) == 11);
    assert(b.subrange(7, 11) =~= r.subrange(0, 4));
    assert(r.subrange(0, 4) =~= u32le(n));
    assert(le32_at(b, 3) as int == index_size_val(es));
    assert(le32_at(b, 7) as int == n);
}

/// The reader parses record `i` of a packed archive back to the file's
/// path, its absolute offset and its size.
proof fn lemma_parse_entry_of_packed(es: Seq<ArchiveFileModel>, vb: u8, i: int)
    requires
        packable(es),
        vb == VERSION_PLAIN || vb == VERSION_OBFUSCATED,
        0 <= i < es.len(),
    ensures
        parse_entry(archive_bytes(es, vb), 11 + sum_rec(es, i), vb) == Ok::<
            (IndexEntryModel, int),
            PfsError,
        >((packed_entry_models(es)[i], 11 + sum_rec(es, i + 1))),
{
    let b = archive_bytes(es, vb);
    let p = 11 + sum_rec(es, i);
    let rec = record_bytes(es, i);
    let plen = es[i].path.len() as int;
    let w = wire_separated(es[i].path);
    let n = es.len() as int;
    lemma_archive_record_at(es, vb, i);
    lemma_record_bytes_len(es, i);
    lemma_archive_len(es, vb);
    lemma_layout_bounds(es, i);
    lemma_u32le(plen);
    lemma_u32le(abs_offset(es, i));
    lemma_u32le(es[i].data.len() as int);
    // Record i ends within the index region, so every field read is in
    // bounds.
    assert(11 + sum_rec(es, i + 1) <= 7 + index_size_val(es));
    assert(b.subrange(p, p + rec_len(es[i])) == rec);
    assert(b.subrange(p, p + 4) =~= u32le(plen));
    assert(le32_at(b, p) as int == plen);
    assert(b.subrange(p + 4, p + 4 + plen) =~= rec.subrange(4, 4 + plen));
    assert(rec.subrange(4, 4 + plen) =~= w);
    lemma_wire_separated_valid_utf8(es[i].path);
    assert(reserved_len(vb) == 4);
    let fpos = p + 8 + plen;
    assert(b.subrange(fpos, fpos + 4) =~= rec.subrange(8 + plen, 12 + plen));
    assert(rec.subrange(8 + plen, 12 + plen) =~= u32le(abs_offset(es, i)));
    assert(b.subrange(fpos + 4, fpos + 8) =~= rec.subrange(12 + plen, 16 + plen));
    assert(rec.subrange(12 + plen, 16 + plen) =~= u32le(es[i].data.len() as int));
    assert(le32_at(b, fpos) as int == abs_offset(es, i));
    assert(le32_at(b, fpos + 4) as int == es[i].data.len());
    lemma_separator_round_trip(es[i].path);
    assert(host_separated(w) == es[i].path);
    assert(fpos + 8 == 11 + sum_rec(es, i + 1));
}

/// The reader parses the records of files `i..` of a packed archive back
/// to the entries the writer laid out.
proof fn lemma_parse_index_of_packed_from(es: Seq<ArchiveFileModel>, vb: u8, i: int)
    requires
        packable(es),
        vb == VERSION_PLAIN || vb == VERSION_OBFUSCATED,
        0 <= i <= es.len(),
    ensures
        parse_entries(archive_bytes(es, vb), 11 + sum_rec(es, i), es.len() - i, vb) == Ok::<
            (Seq<IndexEntryModel>, int),
            PfsError,
        >((packed_entry_models(es).skip(i), 11 + sum_rec(es, es.len() as int))),
    decreases es.len() - i,
{
    let b = archive_bytes(es, vb);
    let ems = packed_entry_models(es);
    let n = es.len() as int;
    if i == n {
        assert(ems.skip(n) =~= Seq::<IndexEntryModel>::empty());
    } else {
        lemma_parse_entry_of_packed(es, vb, i);
        lemma_parse_index_of_packed_from(es, vb, i + 1);
        assert(seq![ems[i]] + ems.skip(i + 1) =~= ems.skip(i));
    }
}

/// The key the reader derives from a packed archive is the key the writer
/// obfuscated with: both hash the same index region.
proof fn lemma_derive_key_of_packed(es: Seq<ArchiveFileModel>, vb: u8)
    requires
        layout_fits(es),
        vb == VERSION_PLAIN || vb == VERSION_OBFUSCATED,
    ensures
        spec_derive_key(archive_bytes(es, vb), vb, index_size_val(es) as u32) == Ok::<
            Seq<u8>,
            PfsError,
        >(key_for(es, vb)),
{
    let b = archive_bytes(es, vb);
    lemma_archive_len(es, vb);
    lemma_layout_bounds(es, 0);
    lemma_archive_region(es, vb);
    assert((index_size_val(es) as u32) as int == index_size_val(es));
}

/// Extracting the entries of files `i..` of a packed archive gives those
/// files back: the offsets land on the payloads, and the XOR stream undoes
/// itself.
proof fn lemma_extract_of_packed_from(es: Seq<ArchiveFileModel>, vb: u8, i: int)
    requires
        packable(es),
        vb == VERSION_PLAIN || vb == VERSION_OBFUSCATED,
        0 <= i <= es.len(),
    ensures
        spec_extract_all(
            archive_bytes(es, vb),
            packed_entry_models(es).skip(i),
            key_for(es, vb),
        ) == Ok::<Seq<ArchiveFileModel>, PfsError>(es.skip(i)),
    decreases es.len() - i,
{
    let b = archive_bytes(es, vb);
    let ems = packed_entry_models(es);
    let key = key_for(es, vb);
    let n = es.len() as int;
    lemma_archive_len(es, vb);
    if i == n {
        assert(ems.skip(n) =~= Seq::<IndexEntryModel>::empty());
        assert(es.skip(n) =~= Seq::<ArchiveFileModel>::empty());
    } else {
        let suf = ems.skip(i);
        lemma_layout_bounds(es, i);
        assert(suf[0] == ems[i]);
        assert(suf.drop_first() =~= ems.skip(i + 1));
        // A real payload's offset starts past the header and index region,
        // so it is never the zero sentinel.
        assert(ems[i].offset as int == abs_offset(es, i));
        assert(ems[i].offset != 0);
        assert(ems[i].size as int == es[i].data.len());
        assert(ems[i].offset as int + ems[i].size as int == 7 + index_size_val(es) + payload_sum(
            es,
            i + 1,
        ));
        lemma_archive_payload_at(es, vb, i);
        lemma_xor_with_key_involutive(es[i].data, key);
        assert(spec_extract_entry(b, ems[i], key) == Ok::<Seq<u8>, PfsError>(es[i].data));
        lemma_extract_of_packed_from(es, vb, i + 1);
        assert(seq![ArchiveFileModel { path: ems[i].path, data: es[i].data }] + es.skip(i + 1)
            =~= es.skip(i));
    }
}

/// Round trip: reading a packed archive gives back exactly the packed
/// files — same paths, same bytes, in order — for both the plain and the
/// obfuscated version.
pub proof fn lemma_pack_unpack_round_trip(es: Seq<ArchiveFileModel>, version: Option<u8>)
    requires
        packable(es),
        version_ok(version),
    ensures
        spec_unpack(archive_bytes(es, version_ascii(version))) == Ok::<
            Seq<ArchiveFileModel>,
            PfsError,
        >(es),
{
    let vb = version_ascii(version);
    let b = archive_bytes(es, vb);
    let h = packed_header(es, vb);
    let ems = packed_entry_models(es);
    let n = es.len() as int;
    lemma_layout_bounds(es, 0);
    lemma_parse_header_of_packed(es, vb);
    assert(h.file_count as int == n);
    assert(header_len(h.pack_version) == 11 + sum_rec(es, 0));
    lemma_parse_index_of_packed_from(es, vb, 0);
    assert(ems.skip(0) =~= ems);
    lemma_derive_key_of_packed(es, vb);
    lemma_extract_of_packed_from(es, vb, 0);
    assert(es.skip(0) =~= es);
}

/// Key-derivation determinism: the archive over a file list is a function
/// of the list and the version alone, so packing one tree twice — version
/// `'8'` included, whose key is a digest of the index bytes — emits
/// byte-identical archives.
pub proof fn lemma_pack_deterministic(
    es: Seq<ArchiveFileModel>,
    version: Option<u8>,
    b1: Seq<u8>,
    b2: Seq<u8>,
)
    requires
        b1 == archive_bytes(es, version_ascii(version)),
        b2 == archive_bytes(es, version_ascii(version)),
    ensures
        b1 == b2,
{
}

/// A successful record parse never moves the position backwards.
proof fn lemma_parse_entries_end_bound(bytes: Seq<u8>, pos: int, count: int, version: u8)
    ensures
        (parse_entries(bytes, pos, count, version) matches Ok((s, end)) ==> end >= pos),
    decreases count,
{
    if count > 0 {
        match parse_entry(bytes, pos, version) {
            Ok((entry, next)) => {
                lemma_parse_entries_end_bound(bytes, next, count - 1, version);
            },
            Err(_) => {},
        }
    }
}

/// A record parse that stays under `m` reads only bytes under `m`, so it
/// comes out the same on any source that agrees on those bytes.
proof fn lemma_parse_entry_prefix(
    b1: Seq<u8>,
    b2: Seq<u8>,
    pos: int,
    version: u8,
    m: int,
    entry: IndexEntryModel,
    next: int,
)
    requires
        0 <= m <= b1.len(),
        m <= b2.len(),
        b1.subrange(0, m) == b2.subrange(0, m),
        parse_entry(b1, pos, version) == Ok::<(IndexEntryModel, int), PfsError>((entry, next)),
        0 <= pos,
        next <= m,
    ensures
        parse_entry(b2, pos, version) == Ok::<(IndexEntryModel, int), PfsError>((entry, next)),
{
    assert forall|j: int| 0 <= j < m implies b1[j] == b2[j] by {
        assert(b1.subrange(0, m)[j] == b1[j]);
        assert(b2.subrange(0, m)[j] == b2[j]);
        assert(b1.subrange(0, m)[j] == b2.subrange(0, m)[j]);
    }
    let plen = le32_at(b1, pos) as int;
    assert(b2.subrange(pos, pos + 4) =~= b1.subrange(pos, pos + 4));
    assert(le32_at(b2, pos) == le32_at(b1, pos));
    assert(b2.subrange(pos + 4, pos + 4 + plen) =~= b1.subrange(pos + 4, pos + 4 + plen));
    let fpos = pos + 4 + plen + reserved_len(version);
    assert(b2.subrange(fpos, fpos + 4) =~= b1.subrange(fpos, fpos + 4));
    assert(b2.subrange(fpos + 4, fpos + 8) =~= b1.subrange(fpos + 4, fpos + 8));
}

/// An index parse that stays under `m` comes out the same on any source
/// that agrees on the first `m` bytes.
proof fn lemma_parse_entries_prefix(
    b1: Seq<u8>,
    b2: Seq<u8>,
    pos: int,
    count: int,
    version: u8,
    m: int,
    s: Seq<IndexEntryModel>,
    end: int,
)
    requires
        0 <= m <= b1.len(),
        m <= b2.len(),
        b1.subrange(0, m) == b2.subrange(0, m),
        parse_entries(b1, pos, count, version) == Ok::<(Seq<IndexEntryModel>, int), PfsError>(
            (s, end),
        ),
        0 <= pos,
        end <= m,
    ensures
        parse_entries(b2, pos, count, version) == Ok::<(Seq<IndexEntryModel>, int), PfsError>(
            (s, end),
        ),
    decreases count,
{
    if count > 0 {
        match parse_entry(b1, pos, version) {
            Ok((entry, next)) => {
                match parse_entries(b1, next, count - 1, version) {
                    Ok((rest, e2)) => {
                        lemma_parse_entries_end_bound(b1, next, count - 1, version);
                        lemma_parse_entry_prefix(b1, b2, pos, version, m, entry, next);
                        lemma_parse_entries_prefix(b1, b2, next, count - 1, version, m, rest, e2);
                    },
                    Err(_) => {},
                }
            },
            Err(_) => {},
        }
    }
}

/// After a truncation that leaves entry `i` or a later one without its
/// full payload, extraction of the remaining entries fails with `Io`.
proof fn lemma_extract_truncated_from(es: Seq<ArchiveFileModel>, vb: u8, lim: int, i: int)
    requires
        packable(es),
        vb == VERSION_PLAIN || vb == VERSION_OBFUSCATED,
        0 <= i < es.len(),
        7 + index_size_val(es) <= lim,
        lim < archive_bytes(es, vb).len(),
    ensures
        spec_extract_all(
            archive_bytes(es, vb).subrange(0, lim),
            packed_entry_models(es).skip(i),
            key_for(es, vb),
        ) == Err::<Seq<ArchiveFileModel>, PfsError>(PfsError::Io),
    decreases es.len() - i,
{
    let b = archive_bytes(es, vb);
    let t = b.subrange(0, lim);
    let ems = packed_entry_models(es);
    let key = key_for(es, vb);
    let n = es.len() as int;
    let suf = ems.skip(i);
    lemma_archive_len(es, vb);
    lemma_layout_bounds(es, i);
    assert(suf[0] == ems[i]);
    assert(suf.drop_first() =~= ems.skip(i + 1));
    assert(ems[i].offset as int == abs_offset(es, i));
    assert(ems[i].offset != 0);
    assert(ems[i].offset as int + ems[i].size as int == 7 + index_size_val(es) + payload_sum(
        es,
        i + 1,
    ));
    if ems[i].offset as int + ems[i].size as int > lim {
        assert(spec_extract_entry(t, ems[i], key) == Err::<Seq<u8>, PfsError>(PfsError::Io));
    } else {
        // This entry still fits, so a later one must not: the last
        // payload ends exactly at the untruncated length.
        lemma_payload_sum_mono(es, i + 1, n);
        assert(i + 1 < n) by {
            if i + 1 == n {
                assert(7 + index_size_val(es) + payload_sum(es, n) <= lim);
            }
        }
        lemma_extract_truncated_from(es, vb, lim, i + 1);
    }
}

/// Corruption resistance at the boundary: truncating a packed archive
/// anywhere in its payload region makes extraction fail with `Io` — it
/// never silently returns fewer bytes than an entry declares.
pub proof fn lemma_truncation_detected(es: Seq<ArchiveFileModel>, version: Option<u8>, lim: int)
    requires
        packable(es),
        version_ok(version),
        es.len() > 0,
        7 + index_size_val(es) <= lim,
        lim < archive_bytes(es, version_ascii(version)).len(),
    ensures
        spec_unpack(archive_bytes(es, version_ascii(version)).subrange(0, lim)) == Err::<
            Seq<ArchiveFileModel>,
            PfsError,
        >(PfsError::Io),
{
    let vb = version_ascii(version);
    let b = archive_bytes(es, vb);
    let t = b.subrange(0, lim);
    let h = packed_header(es, vb);
    let ems = packed_entry_models(es);
    let n = es.len() as int;
    let m = 7 + index_size_val(es);
    lemma_archive_len(es, vb);
    lemma_layout_bounds(es, 0);
    lemma_parse_header_of_packed(es, vb);
    // The truncated archive keeps the whole header and index region.
    assert(t.subrange(0, m) =~= b.subrange(0, m));
    assert(t.subrange(0, 7) =~= b.subrange(0, 7));
    assert(t[0] == b[0] && t[1] == b[1] && t[2] == b[2]);
    assert(t.subrange(3, 7) =~= b.subrange(3, 7));
    assert(t.subrange(7, 11) =~= b.subrange(7, 11));
    assert(parse_header(t) == Ok::<ArchiveHeader, PfsError>(h));
    lemma_parse_index_of_packed_from(es, vb, 0);
    assert(ems.skip(0) =~= ems);
    lemma_sum_rec_mono(es, 0, n);
    lemma_parse_entries_prefix(b, t, 11, n, vb, m, ems, 11 + sum_rec(es, n));
    assert(h.file_count as int == n);
    assert(parse_index(t, h) == Ok::<(Seq<IndexEntryModel>, int), PfsError>(
        (ems, 11 + sum_rec(es, n)),
    ));
    // Same bytes hashed, same key.
    lemma_archive_region(es, vb);
    assert(t.subrange(7, m) =~= b.subrange(7, m));
    assert(spec_derive_key(t, vb, h.index_size) == Ok::<Seq<u8>, PfsError>(key_for(es, vb)));
    lemma_extract_truncated_from(es, vb, lim, 0);
}

/// Sentinel skip: extraction reads and writes nothing for an entry whose
/// offset is zero, whatever its declared size — the result over any entry
/// list equals the result over the list with the sentinels removed.
pub proof fn lemma_extract_skips_sentinels(
    bytes: Seq<u8>,
    entries: Seq<IndexEntryModel>,
    key: Seq<u8>,
)
    ensures
        spec_extract_all(bytes, entries, key) == spec_extract_all(
            bytes,
            entries.filter(|e: IndexEntryModel| e.offset != 0),
            key,
        ),
    decreases entries.len(),
{
    let pred = |e: IndexEntryModel| e.offset != 0;
    reveal_with_fuel(Seq::filter, 2);
    if entries.len() == 0 {
        assert(entries.filter(pred) =~= Seq::<IndexEntryModel>::empty());
    } else {
        let e0 = entries[0];
        let rest = entries.drop_first();
        assert(entries =~= seq![e0] + rest);
        Seq::filter_distributes_over_add(seq![e0], rest, pred);
        lemma_extract_skips_sentinels(bytes, rest, key);
        if e0.offset == 0 {
            assert(seq![e0].filter(pred) =~= Seq::<IndexEntryModel>::empty());
            assert(entries.filter(pred) =~= rest.filter(pred));
        } else {
            assert(seq![e0].filter(pred) =~= seq![e0]);
            assert(entries.filter(pred) =~= seq![e0] + rest.filter(pred));
            let f = seq![e0] + rest.filter(pred);
            assert(f[0] == e0);
            assert(f.drop_first() =~= rest.filter(pred));
        }
    }
}

} // verus!
