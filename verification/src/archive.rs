//! The archive builder: bundle the matched files into one zip archive.
//!
//! The container is the zip format, built canonically: one local file
//! header and deflate-compressed data per entry, then the central
//! directory and the end record, all fields little-endian, every
//! timestamp fixed and every permission a fixed conservative value.
//! The container structure is verified; the deflate stream and the
//! CRC-32 checksum are outside calls whose results are named and
//! otherwise not assumed.  The reader accepts exactly the canonical
//! archives this library writes, and decoding an encoded archive
//! provably returns every entry unchanged.  Entries are named by the
//! file's base name alone, so two matched files sharing a base name
//! produce two entries with the same name; that mirrors the tool this
//! belongs to and is deliberately left as is.

use crate::walker::{base_name, base_name_exec};
use chrono::Datelike;
use chrono::Timelike;
use vstd::prelude::*;
use vstd::string::*;

verus! {

/// Signature of a local file header.
pub const LOCAL_SIG: u32 = 0x04034b50;

/// Signature of a central directory header.
pub const CENTRAL_SIG: u32 = 0x02014b50;

/// Signature of the end-of-central-directory record.
pub const END_SIG: u32 = 0x06054b50;

/// Version needed to extract: 2.0, the deflate baseline.
pub const VERSION_NEEDED: u16 = 20;

/// Version made by: a unix origin, format 2.0, so the external
/// attributes carry a file mode.
pub const VERSION_MADE_BY: u16 = 0x0314;

/// Compression method: deflate.
pub const METHOD_DEFLATE: u16 = 8;

/// The fixed timestamp of every entry: 1980-01-01, 00:00:00, in the
/// format's own date encoding.
pub const DOS_DATE_1980: u16 = 0x0021;

/// The fixed conservative permissions of every entry: a regular file,
/// readable by all, writable by its owner.
pub const UNIX_ATTRS: u32 = 0x81a40000;

/// One archive entry: the stored name, the checksum and size of the
/// original bytes, and the deflate-compressed bytes themselves.
pub struct ArchiveEntry {
    pub name: Vec<u8>,
    pub crc: u32,
    pub raw_size: u32,
    pub data: Vec<u8>,
}

/// The mathematical model of an archive entry.
#[verifier::ext_equal]
pub ghost struct EntryModel {
    pub name: Seq<u8>,
    pub crc: u32,
    pub raw_size: u32,
    pub data: Seq<u8>,
}

impl View for ArchiveEntry {
    type V = EntryModel;

    open spec fn view(&self) -> EntryModel {
        EntryModel { name: self.name@, crc: self.crc, raw_size: self.raw_size, data: self.data@ }
    }
}

/// The models of a sequence of entries.
pub open spec fn entries_view(es: Seq<ArchiveEntry>) -> Seq<EntryModel> {
    es.map_values(|e: ArchiveEntry| e@)
}

/// A 16-bit field as two little-endian bytes.
#[verifier::opaque]
pub open spec fn le16(n: u16) -> Seq<u8> {
    seq![(n as int % 256) as u8, (n as int / 256) as u8]
}

/// A 32-bit field as four little-endian bytes.
#[verifier::opaque]
pub open spec fn le32(n: u32) -> Seq<u8> {
    let n0 = n as int;
    let n1 = n0 / 256;
    let n2 = n1 / 256;
    let n3 = n2 / 256;
    seq![(n0 % 256) as u8, (n1 % 256) as u8, (n2 % 256) as u8, (n3 % 256) as u8]
}

/// The number two little-endian bytes hold.
pub open spec fn le16_value(b: Seq<u8>) -> int {
    b[0] + 256 * b[1]
}

/// The number four little-endian bytes hold.
pub open spec fn le32_value(b: Seq<u8>) -> int {
    b[0] + 256 * (b[1] + 256 * (b[2] + 256 * b[3]))
}

/// A 16-bit field written as bytes reads back as itself.
pub proof fn lemma_le16_round(n: u16)
    ensures
        le16(n).len() == 2,
        le16_value(le16(n)) == n,
{
    reveal(le16);
    assert(n as int == n as int % 256 + 256 * (n as int / 256));
}

/// A 32-bit field written as bytes reads back as itself.
pub proof fn lemma_le32_round(n: u32)
    ensures
        le32(n).len() == 4,
        le32_value(le32(n)) == n,
{
    reveal(le32);
    let n0 = n as int;
    let n1 = n0 / 256;
    let n2 = n1 / 256;
    let n3 = n2 / 256;
    assert(n0 == n0 % 256 + 256 * n1);
    assert(n1 == n1 % 256 + 256 * n2);
    assert(n2 == n2 % 256 + 256 * n3);
    assert(n3 < 256);
    assert(n3 % 256 == n3);
}

/// Append a 16-bit field.
fn push_le16(out: &mut Vec<u8>, n: u16)
    ensures
        final(out)@ == old(out)@ + le16(n),
{
    out.push((n % 256) as u8);
    out.push((n / 256) as u8);
    proof {
        reveal(le16);
        assert(final(out)@ =~= old(out)@ + le16(n));
    }
}

/// Append a 32-bit field.
fn push_le32(out: &mut Vec<u8>, n: u32)
    ensures
        final(out)@ == old(out)@ + le32(n),
{
    let n1 = n / 256;
    let n2 = n1 / 256;
    let n3 = n2 / 256;
    out.push((n % 256) as u8);
    out.push((n1 % 256) as u8);
    out.push((n2 % 256) as u8);
    out.push((n3 % 256) as u8);
    proof {
        reveal(le32);
        assert(final(out)@ =~= old(out)@ + le32(n));
    }
}

/// Read the 16-bit field at `pos`.
fn read_le16(bytes: &Vec<u8>, pos: usize) -> (r: u16)
    requires
        pos + 2 <= bytes@.len(),
    ensures
        r as int == le16_value(bytes@.subrange(pos as int, pos + 2)),
{
    let total = bytes.len();
    proof {
        assert(pos + 2 <= total);
    }
    let b0 = bytes[pos] as u16;
    let b1 = bytes[pos + 1] as u16;
    let r = b0 + 256 * b1;
    proof {
        let s = bytes@.subrange(pos as int, pos + 2);
        assert(s[0] == bytes@[pos as int]);
        assert(s[1] == bytes@[pos + 1]);
    }
    r
}

/// Read the 32-bit field at `pos`.
fn read_le32(bytes: &Vec<u8>, pos: usize) -> (r: u32)
    requires
        pos + 4 <= bytes@.len(),
    ensures
        r as int == le32_value(bytes@.subrange(pos as int, pos + 4)),
{
    let total = bytes.len();
    proof {
        assert(pos + 4 <= total);
    }
    let b0 = bytes[pos] as u32;
    let b1 = bytes[pos + 1] as u32;
    let b2 = bytes[pos + 2] as u32;
    let b3 = bytes[pos + 3] as u32;
    let r = b0 + 256 * (b1 + 256 * (b2 + 256 * b3));
    proof {
        let s = bytes@.subrange(pos as int, pos + 4);
        assert(s[0] == bytes@[pos as int]);
        assert(s[1] == bytes@[pos + 1]);
        assert(s[2] == bytes@[pos + 2]);
        assert(s[3] == bytes@[pos + 3]);
    }
    r
}

/// The CRC-32 checksum of a byte sequence, as the archive format
/// records it for each entry.
pub uninterp spec fn crc32_of(data: Seq<u8>) -> u32;

/// Relies on crc32fast::hash: the standard CRC-32 checksum of the
/// bytes, a function of the bytes alone.
#[verifier::external_body]
fn crc32_exec(data: &Vec<u8>) -> (r: u32)
    ensures
        r == crc32_of(data@),
{
    crc32fast::hash(data.as_slice())
}

/// The raw deflate stream for a byte sequence, at this library's fixed
/// compression level.
pub uninterp spec fn deflate_of(data: Seq<u8>) -> Seq<u8>;

/// Relies on miniz_oxide::deflate::compress_to_vec: a raw deflate
/// stream for the input, a function of the bytes alone; level 6 is
/// this library's fixed choice.
#[verifier::external_body]
fn deflate_exec(data: &Vec<u8>) -> (r: Vec<u8>)
    ensures
        r@ == deflate_of(data@),
{
    miniz_oxide::deflate::compress_to_vec(data.as_slice(), 6)
}

/// The decompressor's error type, declared so the trusted wrapper can
/// return it.
#[verifier::external_type_specification]
#[verifier::external_body]
pub struct ExDecompressError(miniz_oxide::inflate::DecompressError);

/// Relies on miniz_oxide::inflate::decompress_to_vec: it decodes a raw
/// deflate stream back to the bytes that stream encodes, and so inverts
/// this library's compressor: decompressing `deflate_of(b)` succeeds
/// with exactly `b`.
#[verifier::external_body]
fn inflate_exec(data: &Vec<u8>) -> (r: Result<Vec<u8>, miniz_oxide::inflate::DecompressError>)
    ensures
        match r {
            Ok(o) => forall|b: Seq<u8>| data@ == deflate_of(b) ==> o@ == b,
            Err(_) => forall|b: Seq<u8>| data@ != deflate_of(b),
        },
{
    miniz_oxide::inflate::decompress_to_vec(data.as_slice())
}

/// Decompress one read-back entry to the file bytes it stores.  On any
/// entry whose stream this library's compressor produced, the original
/// bytes come back unchanged: together with the container round trip
/// this closes the archive's byte-identical round trip.
pub fn restore_entry_data(e: &ArchiveEntry) -> (r: Option<Vec<u8>>)
    ensures
        match r {
            Some(o) => forall|b: Seq<u8>| e.data@ == deflate_of(b) ==> o@ == b,
            None => forall|b: Seq<u8>| e.data@ != deflate_of(b),
        },
{
    match inflate_exec(&e.data) {
        Ok(v) => Some(v),
        Err(_) => None,
    }
}

/// The 30 fixed-layout bytes of an entry's local file header.
#[verifier::opaque]
pub open spec fn local_header(e: EntryModel) -> Seq<u8> {
    le32(LOCAL_SIG) + le16(VERSION_NEEDED) + le16(0) + le16(METHOD_DEFLATE) + le16(0) + le16(
        DOS_DATE_1980,
    ) + le32(e.crc) + le32(e.data.len() as u32) + le32(e.raw_size) + le16(e.name.len() as u16)
        + le16(0)
}

/// One entry as it stands in the archive: its local header, its name,
/// its compressed data.
pub open spec fn local_chunk(e: EntryModel) -> Seq<u8> {
    local_header(e) + e.name + e.data
}

/// How many bytes one entry's local chunk takes.
pub open spec fn chunk_len(e: EntryModel) -> int {
    30 + e.name.len() as int + e.data.len() as int
}

/// The local chunks of all entries, in order.
pub open spec fn locals(es: Seq<EntryModel>) -> Seq<u8>
    decreases es.len(),
{
    if es.len() == 0 {
        Seq::empty()
    } else {
        local_chunk(es.first()) + locals(es.drop_first())
    }
}

/// One entry's central directory header, pointing back at its local
/// chunk's offset.
#[verifier::opaque]
pub open spec fn central_chunk(e: EntryModel, off: u32) -> Seq<u8> {
    le32(CENTRAL_SIG) + le16(VERSION_MADE_BY) + le16(VERSION_NEEDED) + le16(0) + le16(
        METHOD_DEFLATE,
    ) + le16(0) + le16(DOS_DATE_1980) + le32(e.crc) + le32(e.data.len() as u32) + le32(e.raw_size)
        + le16(e.name.len() as u16) + le16(0) + le16(0) + le16(0) + le16(0) + le32(UNIX_ATTRS)
        + le32(off) + e.name
}

/// The central directory headers of all entries, with offsets
/// accumulated from `off`.
pub open spec fn centrals(es: Seq<EntryModel>, off: int) -> Seq<u8>
    decreases es.len(),
{
    if es.len() == 0 {
        Seq::empty()
    } else {
        central_chunk(es.first(), off as u32) + centrals(es.drop_first(), off + chunk_len(
            es.first(),
        ))
    }
}

/// The end-of-central-directory record.
pub open spec fn end_record(n: int, cd_size: int, cd_off: int) -> Seq<u8> {
    le32(END_SIG) + le16(0) + le16(0) + le16(n as u16) + le16(n as u16) + le32(cd_size as u32)
        + le32(cd_off as u32) + le16(0)
}

/// Everything after the local chunks: the central directory and the
/// end record.
pub open spec fn directory_of(es: Seq<EntryModel>) -> Seq<u8> {
    centrals(es, 0) + end_record(es.len() as int, centrals(es, 0).len() as int, locals(
        es,
    ).len() as int)
}

/// The whole archive.
pub open spec fn encode_archive(es: Seq<EntryModel>) -> Seq<u8> {
    locals(es) + directory_of(es)
}

/// The total size of the local chunks and the central directory.
pub open spec fn entries_size(es: Seq<EntryModel>) -> int
    decreases es.len(),
{
    if es.len() == 0 {
        0
    } else {
        76 + 2 * (es.first().name.len() as int) + (es.first().data.len() as int) + entries_size(
            es.drop_first(),
        )
    }
}

/// Each entry's name and compressed data fit the format's length
/// fields.
pub open spec fn entries_fit(es: Seq<EntryModel>) -> bool {
    forall|k: int|
        0 <= k < es.len() ==> (#[trigger] es[k]).name.len() <= 0xffff && es[k].data.len()
            <= 0xffffffff
}

/// The whole archive fits the format: the entry count, every length
/// field, and every offset.
pub open spec fn fits_zip(es: Seq<EntryModel>) -> bool {
    &&& es.len() <= 0xffff
    &&& entries_fit(es)
    &&& entries_size(es) <= 0xffffffff
}

/// A local header's length and field windows, however it continues.
proof fn lemma_local_header_reads(e: EntryModel, rest: Seq<u8>)
    ensures
        ({
            let b = local_header(e) + rest;
            &&& local_header(e).len() == 30
            &&& b.len() == 30 + rest.len()
            &&& b.subrange(0, 4) == le32(LOCAL_SIG)
            &&& b.subrange(4, 6) == le16(VERSION_NEEDED)
            &&& b.subrange(6, 8) == le16(0)
            &&& b.subrange(8, 10) == le16(METHOD_DEFLATE)
            &&& b.subrange(10, 12) == le16(0)
            &&& b.subrange(12, 14) == le16(DOS_DATE_1980)
            &&& b.subrange(14, 18) == le32(e.crc)
            &&& b.subrange(18, 22) == le32(e.data.len() as u32)
            &&& b.subrange(22, 26) == le32(e.raw_size)
            &&& b.subrange(26, 28) == le16(e.name.len() as u16)
            &&& b.subrange(28, 30) == le16(0)
            &&& b.skip(30) == rest
        }),
{
    reveal(local_header);
    let b = local_header(e) + rest;
    lemma_le32_round(LOCAL_SIG);
    lemma_le16_round(VERSION_NEEDED);
    lemma_le16_round(0);
    lemma_le16_round(METHOD_DEFLATE);
    lemma_le16_round(DOS_DATE_1980);
    lemma_le32_round(e.crc);
    lemma_le32_round(e.data.len() as u32);
    lemma_le32_round(e.raw_size);
    lemma_le16_round(e.name.len() as u16);
    assert(b.subrange(0, 4) =~= le32(LOCAL_SIG));
    assert(b.subrange(4, 6) =~= le16(VERSION_NEEDED));
    assert(b.subrange(6, 8) =~= le16(0));
    assert(b.subrange(8, 10) =~= le16(METHOD_DEFLATE));
    assert(b.subrange(10, 12) =~= le16(0));
    assert(b.subrange(12, 14) =~= le16(DOS_DATE_1980));
    assert(b.subrange(14, 18) =~= le32(e.crc));
    assert(b.subrange(18, 22) =~= le32(e.data.len() as u32));
    assert(b.subrange(22, 26) =~= le32(e.raw_size));
    assert(b.subrange(26, 28) =~= le16(e.name.len() as u16));
    assert(b.subrange(28, 30) =~= le16(0));
    assert(b.skip(30) =~= rest);
}

/// A local chunk's length is its header, its name and its data.
proof fn lemma_local_chunk_len(e: EntryModel)
    ensures
        local_chunk(e).len() == chunk_len(e),
{
    lemma_local_header_reads(e, Seq::empty());
}

/// A central chunk's length is 46 bytes and the name.
proof fn lemma_central_chunk_len(e: EntryModel, off: u32)
    ensures
        central_chunk(e, off).len() == 46 + e.name.len(),
{
    reveal(central_chunk);
    lemma_le32_round(CENTRAL_SIG);
    lemma_le16_round(VERSION_MADE_BY);
    lemma_le16_round(VERSION_NEEDED);
    lemma_le16_round(0);
    lemma_le16_round(METHOD_DEFLATE);
    lemma_le16_round(DOS_DATE_1980);
    lemma_le32_round(e.crc);
    lemma_le32_round(e.data.len() as u32);
    lemma_le32_round(e.raw_size);
    lemma_le16_round(e.name.len() as u16);
    lemma_le32_round(UNIX_ATTRS);
    lemma_le32_round(off);
}

/// The end record is 22 bytes.
proof fn lemma_end_record_len(n: int, cd_size: int, cd_off: int)
    ensures
        end_record(n, cd_size, cd_off).len() == 22,
{
    lemma_le32_round(END_SIG);
    lemma_le16_round(0);
    lemma_le16_round(n as u16);
    lemma_le32_round(cd_size as u32);
    lemma_le32_round(cd_off as u32);
}

/// Appending an entry appends its local chunk.
proof fn lemma_locals_snoc(es: Seq<EntryModel>, e: EntryModel)
    ensures
        locals(es.push(e)) == locals(es) + local_chunk(e),
    decreases es.len(),
{
    if es.len() == 0 {
        assert(es.push(e).drop_first() =~= Seq::<EntryModel>::empty());
        assert(es.push(e).first() == e);
        assert(locals(Seq::<EntryModel>::empty()) == Seq::<u8>::empty());
        assert(local_chunk(e) + Seq::<u8>::empty() =~= local_chunk(e));
        assert(locals(es) + local_chunk(e) =~= local_chunk(e));
    } else {
        assert(es.push(e).first() == es.first());
        assert(es.push(e).drop_first() =~= es.drop_first().push(e));
        lemma_locals_snoc(es.drop_first(), e);
        assert(local_chunk(es.first()) + (locals(es.drop_first()) + local_chunk(e)) =~= locals(es)
            + local_chunk(e));
    }
}

/// Appending an entry appends its central header, at the offset just
/// past the previous entries' local chunks.
proof fn lemma_centrals_snoc(es: Seq<EntryModel>, e: EntryModel, off: int)
    ensures
        centrals(es.push(e), off) == centrals(es, off) + central_chunk(
            e,
            (off + locals(es).len()) as u32,
        ),
    decreases es.len(),
{
    if es.len() == 0 {
        assert(es.push(e).drop_first() =~= Seq::<EntryModel>::empty());
        assert(es.push(e).first() == e);
        assert(locals(es) =~= Seq::<u8>::empty());
        assert(centrals(es, off) =~= Seq::<u8>::empty());
        assert(centrals(es.push(e).drop_first(), off + chunk_len(e)) =~= Seq::<u8>::empty());
        assert(locals(es).len() == 0);
        assert(central_chunk(e, off as u32) + Seq::<u8>::empty() =~= central_chunk(e, off as u32));
        assert(centrals(es, off) + central_chunk(e, (off + 0) as u32) =~= central_chunk(
            e,
            off as u32,
        ));
    } else {
        let first = es.first();
        assert(es.push(e).first() == first);
        assert(es.push(e).drop_first() =~= es.drop_first().push(e));
        lemma_centrals_snoc(es.drop_first(), e, off + chunk_len(first));
        lemma_local_chunk_len(first);
        assert(locals(es).len() == chunk_len(first) + locals(es.drop_first()).len());
        assert(off + chunk_len(first) + locals(es.drop_first()).len() == off + locals(es).len());
        assert(central_chunk(first, off as u32) + (centrals(es.drop_first(), off + chunk_len(first))
            + central_chunk(e, (off + locals(es).len()) as u32)) =~= centrals(es, off)
            + central_chunk(e, (off + locals(es).len()) as u32));
    }
}

/// Appending an entry grows the total size by its two chunks.
proof fn lemma_size_snoc(es: Seq<EntryModel>, e: EntryModel)
    ensures
        entries_size(es.push(e)) == entries_size(es) + 76 + 2 * (e.name.len() as int) + (
        e.data.len() as int),
    decreases es.len(),
{
    if es.len() == 0 {
        assert(es.push(e).drop_first() =~= Seq::<EntryModel>::empty());
        assert(es.push(e).first() == e);
        assert(entries_size(es) == 0);
        assert(entries_size(Seq::<EntryModel>::empty()) == 0);
        assert(entries_size(es.push(e)) == 76 + 2 * (e.name.len() as int) + e.data.len() as int);
    } else {
        assert(es.push(e).first() == es.first());
        assert(es.push(e).drop_first() =~= es.drop_first().push(e));
        lemma_size_snoc(es.drop_first(), e);
        assert(entries_size(es.push(e)) == 76 + 2 * (es.first().name.len() as int)
            + es.first().data.len() as int + entries_size(es.drop_first().push(e)));
    }
}

/// The total size is never negative.
proof fn lemma_size_nonneg(es: Seq<EntryModel>)
    ensures
        entries_size(es) >= 0,
    decreases es.len(),
{
    if es.len() > 0 {
        lemma_size_nonneg(es.drop_first());
    }
}

/// The total size splits at any index.
proof fn lemma_size_split(es: Seq<EntryModel>, i: int)
    requires
        0 <= i <= es.len(),
    ensures
        entries_size(es) == entries_size(es.take(i)) + entries_size(es.skip(i)),
    decreases i,
{
    if i == 0 {
        assert(es.take(0) =~= Seq::<EntryModel>::empty());
        assert(es.skip(0) =~= es);
    } else {
        let d = es.drop_first();
        assert(es.take(i).first() == es.first());
        assert(es.take(i).drop_first() =~= d.take(i - 1));
        assert(es.skip(i) =~= d.skip(i - 1));
        lemma_size_split(d, i - 1);
        assert(entries_size(es.take(i)) == 76 + 2 * (es.first().name.len() as int)
            + es.first().data.len() as int + entries_size(d.take(i - 1)));
    }
}

/// The total size is the length of the local chunks and the central
/// directory together.
proof fn lemma_size_is_lengths(es: Seq<EntryModel>, off: int)
    ensures
        locals(es).len() + centrals(es, off).len() == entries_size(es),
    decreases es.len(),
{
    if es.len() > 0 {
        lemma_local_chunk_len(es.first());
        lemma_central_chunk_len(es.first(), off as u32);
        lemma_size_is_lengths(es.drop_first(), off + chunk_len(es.first()));
    }
}

/// Parse `n` local chunks from the front of `b`; what follows them is
/// returned as the rest.  Only the canonical fixed fields are accepted.
pub open spec fn parse_locals(b: Seq<u8>, n: nat) -> Option<(Seq<EntryModel>, Seq<u8>)>
    decreases n,
{
    if n == 0 {
        Some((Seq::empty(), b))
    } else if b.len() < 30 {
        None
    } else {
        let nlen = le16_value(b.subrange(26, 28));
        let csize = le32_value(b.subrange(18, 22));
        if b.subrange(0, 4) != le32(LOCAL_SIG) || b.subrange(4, 6) != le16(VERSION_NEEDED)
            || b.subrange(6, 8) != le16(0) || b.subrange(8, 10) != le16(METHOD_DEFLATE)
            || b.subrange(10, 12) != le16(0) || b.subrange(12, 14) != le16(DOS_DATE_1980)
            || b.subrange(28, 30) != le16(0) {
            None
        } else if b.len() < 30 + nlen + csize {
            None
        } else {
            let e = EntryModel {
                name: b.subrange(30, 30 + nlen),
                crc: le32_value(b.subrange(14, 18)) as u32,
                raw_size: le32_value(b.subrange(22, 26)) as u32,
                data: b.subrange(30 + nlen, 30 + nlen + csize),
            };
            match parse_locals(b.skip(30 + nlen + csize), (n - 1) as nat) {
                None => None,
                Some((more, tail)) => Some((seq![e] + more, tail)),
            }
        }
    }
}

/// Parse a whole canonical archive: the entry count from the end
/// record, that many local chunks from the front, and after them
/// exactly the directory those entries prescribe.
pub open spec fn parse_archive(b: Seq<u8>) -> Option<Seq<EntryModel>> {
    if b.len() < 22 {
        None
    } else {
        let n = le16_value(b.subrange(b.len() - 12, b.len() - 10));
        match parse_locals(b, n as nat) {
            None => None,
            Some((es, tail)) => if fits_zip(es) && tail == directory_of(es) {
                Some(es)
            } else {
                None
            },
        }
    }
}

/// How one local chunk reads, whatever follows it: every fixed field
/// holds its canonical value, the length fields hold the entry's
/// lengths, and the name, data and remainder sit where the header says.
#[verifier::rlimit(100)]
proof fn lemma_parse_one_local(e: EntryModel, rb: Seq<u8>)
    requires
        e.name.len() <= 0xffff,
        e.data.len() <= 0xffffffff,
    ensures
        ({
            let b = local_chunk(e) + rb;
            let nlen = e.name.len() as int;
            let csize = e.data.len() as int;
            &&& b.len() == 30 + nlen + csize + rb.len()
            &&& b.subrange(0, 4) == le32(LOCAL_SIG)
            &&& b.subrange(4, 6) == le16(VERSION_NEEDED)
            &&& b.subrange(6, 8) == le16(0)
            &&& b.subrange(8, 10) == le16(METHOD_DEFLATE)
            &&& b.subrange(10, 12) == le16(0)
            &&& b.subrange(12, 14) == le16(DOS_DATE_1980)
            &&& b.subrange(28, 30) == le16(0)
            &&& le16_value(b.subrange(26, 28)) == nlen
            &&& le32_value(b.subrange(18, 22)) == csize
            &&& le32_value(b.subrange(14, 18)) == e.crc
            &&& le32_value(b.subrange(22, 26)) == e.raw_size
            &&& b.subrange(30, 30 + nlen) == e.name
            &&& b.subrange(30 + nlen, 30 + nlen + csize) == e.data
            &&& b.skip(30 + nlen + csize) == rb
        }),
{
    let b = local_chunk(e) + rb;
    let nlen = e.name.len() as int;
    let csize = e.data.len() as int;
    assert(b =~= local_header(e) + (e.name + (e.data + rb)));
    lemma_local_header_reads(e, e.name + (e.data + rb));
    lemma_le16_round(e.name.len() as u16);
    lemma_le32_round(e.data.len() as u32);
    lemma_le32_round(e.crc);
    lemma_le32_round(e.raw_size);
    assert(b.skip(30) == e.name + (e.data + rb));
    assert(b.subrange(30, 30 + nlen) =~= e.name);
    assert(b.subrange(30 + nlen, 30 + nlen + csize) =~= e.data);
    assert(b.skip(30 + nlen + csize) =~= rb);
}

/// Parsing the local chunks of `es` followed by anything yields
/// exactly `es` and the rest untouched.
#[verifier::rlimit(100)]
proof fn lemma_parse_locals_round(es: Seq<EntryModel>, tail: Seq<u8>)
    requires
        entries_fit(es),
    ensures
        parse_locals(locals(es) + tail, es.len()) == Some((es, tail)),
    decreases es.len(),
{
    if es.len() == 0 {
        assert(locals(es) + tail =~= tail);
        assert(es =~= Seq::<EntryModel>::empty());
    } else {
        let e = es.first();
        let rest = es.drop_first();
        assert(es[0] == e);
        assert forall|k: int| 0 <= k < rest.len() implies (#[trigger] rest[k]).name.len() <= 0xffff
            && rest[k].data.len() <= 0xffffffff by {
            assert(rest[k] == es[k + 1]);
        }
        let rb = locals(rest) + tail;
        let b = locals(es) + tail;
        assert(b =~= local_chunk(e) + rb);
        lemma_parse_one_local(e, rb);
        let nlen = e.name.len() as int;
        let csize = e.data.len() as int;
        lemma_parse_locals_round(rest, tail);
        assert(parse_locals(rb, rest.len()) == Some((rest, tail)));
        let e2 = EntryModel {
            name: b.subrange(30, 30 + nlen),
            crc: le32_value(b.subrange(14, 18)) as u32,
            raw_size: le32_value(b.subrange(22, 26)) as u32,
            data: b.subrange(30 + nlen, 30 + nlen + csize),
        };
        assert(e2 =~= e);
        assert(seq![e2] + rest =~= es);
    }
}

/// The round trip: decoding an encoded canonical archive yields the
/// entries that were put in, each field and byte unchanged.
pub proof fn lemma_archive_round_trip(es: Seq<EntryModel>)
    requires
        fits_zip(es),
    ensures
        parse_archive(encode_archive(es)) == Some(es),
{
    let b = encode_archive(es);
    let dir = directory_of(es);
    lemma_end_record_len(es.len() as int, centrals(es, 0).len() as int, locals(es).len() as int);
    assert(dir.len() == centrals(es, 0).len() + 22);
    assert(b.len() >= 22);
    lemma_le32_round(END_SIG);
    lemma_le16_round(0);
    lemma_le16_round(es.len() as u16);
    assert(b.subrange(b.len() - 12, b.len() - 10) =~= le16(es.len() as u16));
    assert(le16_value(b.subrange(b.len() - 12, b.len() - 10)) == es.len());
    lemma_parse_locals_round(es, dir);
    assert(locals(es) + dir == b);
    assert(parse_locals(b, es.len()) == Some((es, dir)));
}

/// Append one entry's local chunk.
fn push_local(out: &mut Vec<u8>, e: &ArchiveEntry)
    requires
        e.name@.len() <= 0xffff,
        e.data@.len() <= 0xffffffff,
    ensures
        final(out)@ == old(out)@ + local_chunk(e@),
{
    push_le32(out, LOCAL_SIG);
    push_le16(out, VERSION_NEEDED);
    push_le16(out, 0);
    push_le16(out, METHOD_DEFLATE);
    push_le16(out, 0);
    push_le16(out, DOS_DATE_1980);
    push_le32(out, e.crc);
    push_le32(out, e.data.len() as u32);
    push_le32(out, e.raw_size);
    push_le16(out, e.name.len() as u16);
    push_le16(out, 0);
    push_bytes(out, &e.name);
    push_bytes(out, &e.data);
    proof {
        reveal(local_header);
        assert(final(out)@ =~= old(out)@ + local_chunk(e@));
    }
}

/// Append one entry's central directory header.
fn push_central(out: &mut Vec<u8>, e: &ArchiveEntry, off: u32)
    requires
        e.name@.len() <= 0xffff,
        e.data@.len() <= 0xffffffff,
    ensures
        final(out)@ == old(out)@ + central_chunk(e@, off),
{
    push_le32(out, CENTRAL_SIG);
    push_le16(out, VERSION_MADE_BY);
    push_le16(out, VERSION_NEEDED);
    push_le16(out, 0);
    push_le16(out, METHOD_DEFLATE);
    push_le16(out, 0);
    push_le16(out, DOS_DATE_1980);
    push_le32(out, e.crc);
    push_le32(out, e.data.len() as u32);
    push_le32(out, e.raw_size);
    push_le16(out, e.name.len() as u16);
    push_le16(out, 0);
    push_le16(out, 0);
    push_le16(out, 0);
    push_le16(out, 0);
    push_le32(out, UNIX_ATTRS);
    push_le32(out, off);
    push_bytes(out, &e.name);
    proof {
        reveal(central_chunk);
        assert(final(out)@ =~= old(out)@ + central_chunk(e@, off));
    }
}

/// Append a copy of `bytes`.
fn push_bytes(out: &mut Vec<u8>, bytes: &Vec<u8>)
    ensures
        final(out)@ == old(out)@ + bytes@,
{
    let mut i: usize = 0;
    while i < bytes.len()
        invariant
            i <= bytes@.len(),
            out@ == old(out)@ + bytes@.take(i as int),
        decreases bytes@.len() - i,
    {
        out.push(bytes[i]);
        proof {
            assert(old(out)@ + bytes@.take(i as int) + seq![bytes@[i as int]] =~= old(out)@
                + bytes@.take(i + 1 as int));
        }
        i += 1;
    }
    proof {
        assert(old(out)@ + bytes@.take(bytes@.len() as int) =~= old(out)@ + bytes@);
    }
}

/// Encode the central directory and the end record for the entries.
fn encode_directory_bytes(entries: &Vec<ArchiveEntry>) -> (r: Vec<u8>)
    requires
        fits_zip(entries_view(entries@)),
    ensures
        r@ == directory_of(entries_view(entries@)),
{
    let ghost models = entries_view(entries@);
    proof {
        lemma_size_is_lengths(models, 0);
        lemma_size_nonneg(models);
    }
    let n = entries.len();
    let mut out: Vec<u8> = Vec::new();
    let mut off: u32 = 0;
    let mut i: usize = 0;
    while i < n
        invariant
            i <= n,
            n == entries@.len(),
            models == entries_view(entries@),
            fits_zip(models),
            out@ == centrals(models.take(i as int), 0),
            off as int == locals(models.take(i as int)).len(),
        decreases n - i,
    {
        let ghost prefix = models.take(i as int);
        let ghost e = models[i as int];
        proof {
            assert(e.name.len() <= 0xffff && e.data.len() <= 0xffffffff);
            assert(prefix.push(e) =~= models.take(i + 1 as int));
            lemma_centrals_snoc(prefix, e, 0);
            lemma_locals_snoc(prefix, e);
            lemma_local_chunk_len(e);
            lemma_size_split(models, i + 1 as int);
            lemma_size_nonneg(models.skip(i + 1 as int));
            lemma_size_is_lengths(models.take(i + 1 as int), 0);
            assert(locals(models.take(i + 1 as int)).len() <= entries_size(models));
        }
        push_central(&mut out, &entries[i], off);
        let step64: u64 = 30 + entries[i].name.len() as u64 + entries[i].data.len() as u64;
        proof {
            assert(off as int + step64 as int == locals(models.take(i + 1 as int)).len());
            assert(off as int + step64 as int <= 0xffffffff);
        }
        off = ((off as u64 + step64) as u32);
        i += 1;
    }
    proof {
        assert(models.take(n as int) =~= models);
    }
    let cd_size = out.len();
    proof {
        assert(cd_size as int == centrals(models, 0).len());
        assert(cd_size <= 0xffffffff);
    }
    push_le32(&mut out, END_SIG);
    push_le16(&mut out, 0);
    push_le16(&mut out, 0);
    push_le16(&mut out, n as u16);
    push_le16(&mut out, n as u16);
    push_le32(&mut out, cd_size as u32);
    push_le32(&mut out, off);
    push_le16(&mut out, 0);
    proof {
        assert(out@ =~= directory_of(models));
    }
    out
}

/// Encode the entries as one canonical archive byte buffer.
pub fn encode_archive_bytes(entries: &Vec<ArchiveEntry>) -> (r: Vec<u8>)
    requires
        fits_zip(entries_view(entries@)),
    ensures
        r@ == encode_archive(entries_view(entries@)),
{
    let ghost models = entries_view(entries@);
    let n = entries.len();
    let mut out: Vec<u8> = Vec::new();
    let mut i: usize = 0;
    while i < n
        invariant
            i <= n,
            n == entries@.len(),
            models == entries_view(entries@),
            fits_zip(models),
            out@ == locals(models.take(i as int)),
        decreases n - i,
    {
        proof {
            assert(models[i as int].name.len() <= 0xffff && models[i as int].data.len()
                <= 0xffffffff);
        }
        push_local(&mut out, &entries[i]);
        proof {
            lemma_locals_snoc(models.take(i as int), models[i as int]);
            assert(models.take(i as int).push(models[i as int]) =~= models.take(i + 1 as int));
        }
        i += 1;
    }
    proof {
        assert(models.take(n as int) =~= models);
    }
    let dir = encode_directory_bytes(entries);
    push_bytes(&mut out, &dir);
    out
}

/// Decide whether the entries fit the format's fields.
pub fn fits_zip_exec(entries: &Vec<ArchiveEntry>) -> (r: bool)
    ensures
        r == fits_zip(entries_view(entries@)),
{
    let ghost models = entries_view(entries@);
    let n = entries.len();
    if n > 0xffff {
        return false;
    }
    let mut total: u128 = 0;
    let mut i: usize = 0;
    while i < n
        invariant
            i <= n,
            n == entries@.len(),
            models == entries_view(entries@),
            total as int == entries_size(models.take(i as int)),
            total as int <= i * 0x1_0002_004c,
            forall|k: int|
                0 <= k < i ==> (#[trigger] models[k]).name.len() <= 0xffff && models[k].data.len()
                    <= 0xffffffff,
        decreases n - i,
    {
        let ghost e = models[i as int];
        if entries[i].name.len() > 0xffff {
            proof {
                assert(!entries_fit(models));
            }
            return false;
        }
        if entries[i].data.len() as u64 > 0xffffffff {
            proof {
                assert(!entries_fit(models));
            }
            return false;
        }
        let step: u128 = 76 + 2 * (entries[i].name.len() as u128) + (entries[i].data.len() as u128);
        proof {
            assert(models.take(i as int).push(e) =~= models.take(i + 1 as int));
            lemma_size_snoc(models.take(i as int), e);
            assert(step as int == 76 + 2 * (e.name.len() as int) + e.data.len() as int);
            assert(step as int <= 0x1_0002_004c);
        }
        total = total + step;
        i += 1;
    }
    proof {
        assert(models.take(n as int) =~= models);
    }
    total <= 0xffffffff
}

/// Copy `len` bytes starting at `pos`.
fn read_bytes(bytes: &Vec<u8>, pos: usize, len: usize) -> (r: Vec<u8>)
    requires
        pos + len <= bytes@.len(),
    ensures
        r@ == bytes@.subrange(pos as int, pos + len),
{
    let total = bytes.len();
    proof {
        assert(pos + len <= total);
    }
    let mut r: Vec<u8> = Vec::new();
    let mut i: usize = 0;
    while i < len
        invariant
            i <= len,
            pos + len <= bytes@.len(),
            bytes@.len() <= usize::MAX,
            r@ == bytes@.subrange(pos as int, pos + i),
        decreases len - i,
    {
        r.push(bytes[pos + i]);
        proof {
            assert(bytes@.subrange(pos as int, pos + i).push(bytes@[pos + i]) =~= bytes@.subrange(
                pos as int,
                pos + i + 1,
            ));
        }
        i += 1;
    }
    r
}

/// Compare the bytes from `pos` on with `expected`.
fn tail_matches(bytes: &Vec<u8>, pos: usize, expected: &Vec<u8>) -> (r: bool)
    requires
        pos <= bytes@.len(),
    ensures
        r == (bytes@.skip(pos as int) == expected@),
{
    let total = bytes.len();
    if total - pos != expected.len() {
        proof {
            assert(bytes@.skip(pos as int).len() != expected@.len());
        }
        return false;
    }
    let m = expected.len();
    let mut i: usize = 0;
    while i < m
        invariant
            i <= m,
            pos + m == bytes@.len(),
            bytes@.len() <= usize::MAX,
            m == expected@.len(),
            forall|j: int| 0 <= j < i ==> bytes@[pos + j] == expected@[j],
        decreases m - i,
    {
        if bytes[pos + i] != expected[i] {
            proof {
                assert(bytes@.skip(pos as int)[i as int] != expected@[i as int]);
            }
            return false;
        }
        i += 1;
    }
    proof {
        assert(bytes@.skip(pos as int) =~= expected@);
    }
    true
}

/// Decode a canonical archive byte buffer back into its entries.  The
/// result is exactly what the parse of the bytes says: every archive
/// this library wrote decodes, anything else is rejected.
#[verifier::rlimit(100)]
pub fn read_archive(bytes: &Vec<u8>) -> (r: Option<Vec<ArchiveEntry>>)
    ensures
        match r {
            Some(es) => parse_archive(bytes@) == Some(entries_view(es@)),
            None => parse_archive(bytes@) is None,
        },
{
    let total = bytes.len();
    if total < 22 {
        return None;
    }
    let count = read_le16(bytes, total - 12);
    proof {
        assert(bytes@.subrange(total - 12, total - 10) =~= bytes@.subrange(
            bytes@.len() - 12,
            bytes@.len() - 10,
        ));
    }
    let n = count as usize;
    let mut entries: Vec<ArchiveEntry> = Vec::new();
    let mut pos: usize = 0;
    let mut k: usize = 0;
    proof {
        assert(bytes@.skip(0int) =~= bytes@);
        assert(entries_view(entries@) =~= Seq::<EntryModel>::empty());
        let p0 = parse_locals(bytes@, n as nat);
        match p0 {
            Some(r0) => {
                assert(entries_view(entries@) + r0.0 =~= r0.0);
            },
            None => {},
        }
    }
    while k < n
        invariant
            k <= n,
            pos <= total,
            total == bytes@.len(),
            n == count,
            count as int == le16_value(bytes@.subrange(bytes@.len() - 12, bytes@.len() - 10)),
            total >= 22,
            match parse_locals(bytes@.skip(pos as int), (n - k) as nat) {
                Some(r0) => parse_locals(bytes@, n as nat) == Some(
                    (entries_view(entries@) + r0.0, r0.1),
                ),
                None => parse_locals(bytes@, n as nat) is None,
            },
        decreases n - k,
    {
        let ghost remaining = bytes@.skip(pos as int);
        if total - pos < 30 {
            return None;
        }
        let sig = read_le32(bytes, pos);
        let vers = read_le16(bytes, pos + 4);
        let flags = read_le16(bytes, pos + 6);
        let method = read_le16(bytes, pos + 8);
        let mtime = read_le16(bytes, pos + 10);
        let mdate = read_le16(bytes, pos + 12);
        let crc = read_le32(bytes, pos + 14);
        let csize32 = read_le32(bytes, pos + 18);
        let raw = read_le32(bytes, pos + 22);
        let nlen16 = read_le16(bytes, pos + 26);
        let elen = read_le16(bytes, pos + 28);
        proof {
            assert(remaining.subrange(0, 4) =~= bytes@.subrange(pos as int, pos + 4));
            assert(remaining.subrange(4, 6) =~= bytes@.subrange(pos + 4, pos + 6));
            assert(remaining.subrange(6, 8) =~= bytes@.subrange(pos + 6, pos + 8));
            assert(remaining.subrange(8, 10) =~= bytes@.subrange(pos + 8, pos + 10));
            assert(remaining.subrange(10, 12) =~= bytes@.subrange(pos + 10, pos + 12));
            assert(remaining.subrange(12, 14) =~= bytes@.subrange(pos + 12, pos + 14));
            assert(remaining.subrange(14, 18) =~= bytes@.subrange(pos + 14, pos + 18));
            assert(remaining.subrange(18, 22) =~= bytes@.subrange(pos + 18, pos + 22));
            assert(remaining.subrange(22, 26) =~= bytes@.subrange(pos + 22, pos + 26));
            assert(remaining.subrange(26, 28) =~= bytes@.subrange(pos + 26, pos + 28));
            assert(remaining.subrange(28, 30) =~= bytes@.subrange(pos + 28, pos + 30));
            lemma_le32_round(LOCAL_SIG);
            lemma_le16_round(VERSION_NEEDED);
            lemma_le16_round(0);
            lemma_le16_round(METHOD_DEFLATE);
            lemma_le16_round(DOS_DATE_1980);
        }
        let fields_ok = sig == LOCAL_SIG && vers == VERSION_NEEDED && flags == 0 && method
            == METHOD_DEFLATE && mtime == 0 && mdate == DOS_DATE_1980 && elen == 0;
        if !fields_ok {
            proof {
                if sig != LOCAL_SIG {
                    lemma_le32_ne(remaining.subrange(0, 4), LOCAL_SIG, sig);
                } else if vers != VERSION_NEEDED {
                    lemma_le16_ne(remaining.subrange(4, 6), VERSION_NEEDED, vers);
                } else if flags != 0 {
                    lemma_le16_ne(remaining.subrange(6, 8), 0, flags);
                } else if method != METHOD_DEFLATE {
                    lemma_le16_ne(remaining.subrange(8, 10), METHOD_DEFLATE, method);
                } else if mtime != 0 {
                    lemma_le16_ne(remaining.subrange(10, 12), 0, mtime);
                } else if mdate != DOS_DATE_1980 {
                    lemma_le16_ne(remaining.subrange(12, 14), DOS_DATE_1980, mdate);
                } else {
                    lemma_le16_ne(remaining.subrange(28, 30), 0, elen);
                }
                assert(parse_locals(remaining, (n - k) as nat) is None);
            }
            return None;
        }
        proof {
            lemma_le32_eq(remaining.subrange(0, 4), LOCAL_SIG);
            lemma_le16_eq(remaining.subrange(4, 6), VERSION_NEEDED);
            lemma_le16_eq(remaining.subrange(6, 8), 0);
            lemma_le16_eq(remaining.subrange(8, 10), METHOD_DEFLATE);
            lemma_le16_eq(remaining.subrange(10, 12), 0);
            lemma_le16_eq(remaining.subrange(12, 14), DOS_DATE_1980);
            lemma_le16_eq(remaining.subrange(28, 30), 0);
        }
        let nlen = nlen16 as usize;
        let csize = csize32 as usize;
        let avail = total - pos;
        if avail - 30 < nlen || avail - 30 - nlen < csize {
            proof {
                assert(remaining.len() < 30 + nlen + csize);
                assert(parse_locals(remaining, (n - k) as nat) is None);
            }
            return None;
        }
        let name = read_bytes(bytes, pos + 30, nlen);
        let data = read_bytes(bytes, pos + 30 + nlen, csize);
        let pos2 = pos + 30 + nlen + csize;
        proof {
            assert(remaining.subrange(30, 30 + nlen as int) =~= bytes@.subrange(
                pos + 30,
                pos + 30 + nlen,
            ));
            assert(remaining.subrange(30 + nlen as int, 30 + nlen + csize) =~= bytes@.subrange(
                pos + 30 + nlen,
                pos + 30 + nlen + csize,
            ));
            assert(remaining.skip(30 + nlen + csize) =~= bytes@.skip(pos2 as int));
        }
        let e = ArchiveEntry { name, crc, raw_size: raw, data };
        let ghost em = EntryModel {
            name: remaining.subrange(30, 30 + nlen as int),
            crc: le32_value(remaining.subrange(14, 18)) as u32,
            raw_size: le32_value(remaining.subrange(22, 26)) as u32,
            data: remaining.subrange(30 + nlen as int, 30 + nlen + csize),
        };
        entries.push(e);
        proof {
            assert(e@ =~= em);
            let step = parse_locals(bytes@.skip(pos2 as int), (n - k - 1) as nat);
            match step {
                Some(r1) => {
                    assert(parse_locals(remaining, (n - k) as nat) == Some(
                        (seq![em] + r1.0, r1.1),
                    ));
                    assert(entries_view(entries@) =~= entries_view(entries@.drop_last()).push(em));
                    assert(entries_view(entries@.drop_last()).push(em) + r1.0 =~= entries_view(
                        entries@.drop_last(),
                    ) + (seq![em] + r1.0));
                },
                None => {
                    assert(parse_locals(remaining, (n - k) as nat) is None);
                },
            }
        }
        pos = pos2;
        k += 1;
    }
    proof {
        assert(parse_locals(bytes@.skip(pos as int), 0) == Some(
            (Seq::<EntryModel>::empty(), bytes@.skip(pos as int)),
        ));
        assert(entries_view(entries@) + Seq::<EntryModel>::empty() =~= entries_view(entries@));
        assert(parse_locals(bytes@, n as nat) == Some(
            (entries_view(entries@), bytes@.skip(pos as int)),
        ));
    }
    if !fits_zip_exec(&entries) {
        return None;
    }
    let dir = encode_directory_bytes(&entries);
    if tail_matches(bytes, pos, &dir) {
        Some(entries)
    } else {
        None
    }
}

/// Two little-endian fields with the same value are the same bytes.
proof fn lemma_le16_eq(b: Seq<u8>, n: u16)
    requires
        b.len() == 2,
        le16_value(b) == n,
    ensures
        b == le16(n),
{
    reveal(le16);
    assert(b[0] < 256 && b[1] < 256);
    assert(b[0] + 256 * b[1] == n);
    assert(b[0] == n as int % 256 && b[1] == n as int / 256) by (nonlinear_arith)
        requires
            b[0] < 256 && 0 <= b[0] && 0 <= b[1] && b[0] + 256 * b[1] == n,
    ;
    assert(b =~= le16(n));
}

/// A little-endian field holding another value is other bytes.
proof fn lemma_le16_ne(b: Seq<u8>, n: u16, v: u16)
    requires
        b.len() == 2,
        le16_value(b) == v,
        v != n,
    ensures
        b != le16(n),
{
    if b == le16(n) {
        lemma_le16_round(n);
    }
}

/// Two 32-bit fields with the same value are the same bytes.
proof fn lemma_le32_eq(b: Seq<u8>, n: u32)
    requires
        b.len() == 4,
        le32_value(b) == n,
    ensures
        b == le32(n),
{
    reveal(le32);
    let n0 = n as int;
    assert(b[0] == n0 % 256 && b[1] == n0 / 256 % 256 && b[2] == n0 / 256 / 256 % 256 && b[3] == n0
        / 256 / 256 / 256 % 256) by (nonlinear_arith)
        requires
            0 <= b[0] < 256 && 0 <= b[1] < 256 && 0 <= b[2] < 256 && 0 <= b[3] < 256 && b[0] + 256
                * (b[1] + 256 * (b[2] + 256 * b[3])) == n0 && 0 <= n0 < 0x100000000,
    ;
    assert(n0 / 256 / 256 / 256 % 256 == n0 / 256 / 256 / 256) by (nonlinear_arith)
        requires
            0 <= n0 < 0x100000000,
    ;
    assert(b =~= le32(n));
}

/// A 32-bit field holding another value is other bytes.
proof fn lemma_le32_ne(b: Seq<u8>, n: u32, v: u32)
    requires
        b.len() == 4,
        le32_value(b) == v,
        v != n,
    ensures
        b != le32(n),
{
    if b == le32(n) {
        lemma_le32_round(n);
    }
}

/// One matched file handed to the archive step: its path, and its raw
/// bytes where they could be read.
pub struct FileInput {
    pub path: String,
    pub content: Option<Vec<u8>>,
}

/// The mathematical model of a file handed to the archive step.
#[verifier::ext_equal]
pub ghost struct FileInputModel {
    pub path: Seq<char>,
    pub content: Option<Seq<u8>>,
}

impl View for FileInput {
    type V = FileInputModel;

    open spec fn view(&self) -> FileInputModel {
        FileInputModel {
            path: self.path@,
            content: match self.content {
                Some(b) => Some(b@),
                None => None,
            },
        }
    }
}

/// The models of the files handed to the archive step.
pub open spec fn inputs_view(fs: Seq<FileInput>) -> Seq<FileInputModel> {
    fs.map_values(|f: FileInput| f@)
}

/// The bytes of a file's content, empty when it could not be read.
pub open spec fn content_of(f: FileInputModel) -> Seq<u8> {
    match f.content {
        Some(b) => b,
        None => Seq::empty(),
    }
}

/// The entry a readable file becomes: its compressed bytes with their
/// checksum and original size, stored under the base name of its path.
pub open spec fn zip_entry_of(f: FileInputModel) -> EntryModel {
    EntryModel {
        name: vstd::utf8::encode_utf8(base_name(f.path)),
        crc: crc32_of(content_of(f)),
        raw_size: content_of(f).len() as u32,
        data: deflate_of(content_of(f)),
    }
}

/// The entries of a list of readable files, in order.
pub open spec fn zip_entries_of(fs: Seq<FileInputModel>) -> Seq<EntryModel> {
    fs.map_values(|f: FileInputModel| zip_entry_of(f))
}

/// Every file's original size fits the format's 32-bit size field.
pub open spec fn raw_sizes_fit(fs: Seq<FileInputModel>) -> bool {
    forall|k: int| 0 <= k < fs.len() ==> content_of(#[trigger] fs[k]).len() <= 0xffffffff
}

/// The least index whose file could not be read; the length when every
/// file could.
pub open spec fn first_unreadable(fs: Seq<FileInputModel>) -> int
    decreases fs.len(),
{
    if fs.len() == 0 {
        0
    } else if fs.first().content is None {
        0
    } else {
        1 + first_unreadable(fs.drop_first())
    }
}

/// The archive step's failure: either one input file could not be
/// read, or the files cannot fit the archive format's fields.
#[derive(Debug)]
pub enum ArchiveError {
    Unreadable { path: String },
    TooLarge,
}

/// Where the first unreadable file stands, from what is readable before
/// it.
proof fn lemma_first_unreadable_at(fs: Seq<FileInputModel>, i: int)
    requires
        0 <= i <= fs.len(),
        forall|j: int| 0 <= j < i ==> (#[trigger] fs[j]).content is Some,
        i < fs.len() ==> fs[i].content is None,
    ensures
        first_unreadable(fs) == i,
    decreases fs.len(),
{
    if fs.len() == 0 {
    } else if i == 0 {
    } else {
        assert(fs[0].content is Some);
        let d = fs.drop_first();
        assert forall|j: int| 0 <= j < i - 1 implies (#[trigger] d[j]).content is Some by {
            assert(d[j] == fs[j + 1]);
        }
        assert(i - 1 < d.len() ==> d[i - 1].content is None) by {
            if i - 1 < d.len() {
                assert(d[i - 1] == fs[i]);
            }
        }
        lemma_first_unreadable_at(d, i - 1);
    }
}

/// Copy a byte buffer.
fn clone_bytes(v: &Vec<u8>) -> (r: Vec<u8>)
    ensures
        r@ == v@,
{
    let mut r: Vec<u8> = Vec::new();
    let mut i: usize = 0;
    while i < v.len()
        invariant
            i <= v@.len(),
            r@ == v@.take(i as int),
        decreases v@.len() - i,
    {
        r.push(v[i]);
        proof {
            assert(v@.take(i as int).push(v@[i as int]) =~= v@.take(i + 1 as int));
        }
        i += 1;
    }
    proof {
        assert(v@.take(v@.len() as int) =~= v@);
    }
    r
}

/// Bundle the matched files into one archive byte buffer: each file's
/// bytes compressed and stored under its base name, in the given
/// order.  If any file could not be read, the step fails at once with
/// the first such path; if the files cannot fit the format's fields,
/// it fails as too large.  Either way the search results that led here
/// stay valid.
pub fn build_archive(files: &Vec<FileInput>) -> (r: Result<Vec<u8>, ArchiveError>)
    ensures
        match r {
            Ok(bytes) => {
                &&& first_unreadable(inputs_view(files@)) == files@.len()
                &&& raw_sizes_fit(inputs_view(files@))
                &&& fits_zip(zip_entries_of(inputs_view(files@)))
                &&& bytes@ == encode_archive(zip_entries_of(inputs_view(files@)))
            },
            Err(e) => match e {
                ArchiveError::Unreadable { path } => {
                    &&& first_unreadable(inputs_view(files@)) < files@.len()
                    &&& path@ == inputs_view(files@)[first_unreadable(inputs_view(files@))].path
                },
                ArchiveError::TooLarge => {
                    &&& first_unreadable(inputs_view(files@)) == files@.len()
                    &&& !(raw_sizes_fit(inputs_view(files@)) && fits_zip(
                        zip_entries_of(inputs_view(files@)),
                    ))
                },
            },
        },
{
    let ghost orig = inputs_view(files@);
    let n = files.len();
    proof {
        assert(orig.len() == n);
    }
    let mut i: usize = 0;
    while i < n
        invariant
            i <= n,
            n == files@.len(),
            orig == inputs_view(files@),
            forall|j: int| 0 <= j < i ==> (#[trigger] orig[j]).content is Some,
        decreases n - i,
    {
        let ghost fm = orig[i as int];
        match &files[i].content {
            None => {
                proof {
                    assert(fm == files@[i as int]@);
                    assert(fm.content is None);
                    lemma_first_unreadable_at(orig, i as int);
                }
                let e = ArchiveError::Unreadable { path: files[i].path.clone() };
                proof {
                    assert(e matches ArchiveError::Unreadable { path } && path@ == fm.path);
                }
                return Err(e);
            },
            Some(_) => {},
        }
        i += 1;
    }
    proof {
        lemma_first_unreadable_at(orig, orig.len() as int);
    }
    let mut entries: Vec<ArchiveEntry> = Vec::new();
    let mut i: usize = 0;
    while i < n
        invariant
            i <= n,
            n == files@.len(),
            orig == inputs_view(files@),
            first_unreadable(orig) == orig.len(),
            forall|j: int| 0 <= j < orig.len() ==> (#[trigger] orig[j]).content is Some,
            forall|j: int| 0 <= j < i ==> content_of(#[trigger] orig[j]).len() <= 0xffffffff,
            entries_view(entries@) == zip_entries_of(orig.take(i as int)),
        decreases n - i,
    {
        let ghost fm = orig[i as int];
        match &files[i].content {
            None => {
                proof {
                    assert(fm == files@[i as int]@);
                    assert(false);
                }
            },
            Some(b) => {
                proof {
                    assert(fm == files@[i as int]@);
                    assert(content_of(fm) == b@);
                }
                if b.len() as u64 > 0xffffffff {
                    proof {
                        assert(content_of(orig[i as int]).len() > 0xffffffff);
                        assert(!raw_sizes_fit(orig));
                    }
                    return Err(ArchiveError::TooLarge);
                }
                let name_string = base_name_exec(files[i].path.as_str());
                let name = name_string.as_str().as_bytes_vec();
                let crc = crc32_exec(b);
                let raw_size = b.len() as u32;
                let data = deflate_exec(b);
                let e = ArchiveEntry { name, crc, raw_size, data };
                proof {
                    assert(e@ =~= zip_entry_of(fm));
                }
                entries.push(e);
                proof {
                    assert(entries_view(entries@) =~= zip_entries_of(orig.take(i as int)).push(
                        zip_entry_of(fm),
                    ));
                    assert(zip_entries_of(orig.take(i as int)).push(zip_entry_of(fm))
                        =~= zip_entries_of(orig.take(i + 1 as int)));
                }
            },
        }
        i += 1;
    }
    proof {
        assert(orig.take(n as int) =~= orig);
    }
    if !fits_zip_exec(&entries) {
        return Err(ArchiveError::TooLarge);
    }
    Ok(encode_archive_bytes(&entries))
}

/// The round trip in terms of the files handed in: the archive built
/// from a set of readable files reads back as exactly one entry per
/// file, each holding that file's compressed bytes, checksum and size
/// unchanged under its base name.
pub proof fn lemma_built_archive_reads_back(fs: Seq<FileInputModel>)
    requires
        fits_zip(zip_entries_of(fs)),
    ensures
        parse_archive(encode_archive(zip_entries_of(fs))) == Some(zip_entries_of(fs)),
        zip_entries_of(fs).len() == fs.len(),
        forall|k: int|
            0 <= k < fs.len() ==> #[trigger] zip_entries_of(fs)[k] == zip_entry_of(fs[k]),
{
    lemma_archive_round_trip(zip_entries_of(fs));
}

/// Whether the archive step runs once a search is done: it was
/// requested, and there is at least one matched file to bundle.  The
/// match-all results of an empty phrase are bundled like any others.
pub fn should_build_archive(requested: bool, result_count: usize) -> (r: bool)
    ensures
        r == (requested && result_count > 0),
{
    requested && result_count > 0
}

/// The character of one decimal digit.
pub open spec fn digit_char(d: int) -> char {
    ((48 + d) as u8) as char
}

/// A number's last two decimal digits, tens then units.
pub open spec fn two_digits(n: int) -> Seq<char> {
    seq![digit_char(n / 10 % 10), digit_char(n % 10)]
}

/// A number's last four decimal digits, thousands down to units.
pub open spec fn four_digits(n: int) -> Seq<char> {
    seq![
        digit_char(n / 1000 % 10),
        digit_char(n / 100 % 10),
        digit_char(n / 10 % 10),
        digit_char(n % 10),
    ]
}

/// The archive file name for a UTC timestamp: `search_results_`, the
/// timestamp as `YYYYMMDDHHMMSS`, and `.zip`.
pub open spec fn archive_name_spec(y: int, mo: int, d: int, h: int, mi: int, s: int) -> Seq<char> {
    "search_results_"@ + four_digits(y) + two_digits(mo) + two_digits(d) + two_digits(h)
        + two_digits(mi) + two_digits(s) + ".zip"@
}

/// One decimal digit as text.
fn digit_str(d: u32) -> (r: &'static str)
    requires
        d < 10,
    ensures
        r@ == seq![digit_char(d as int)],
{
    if d == 0 {
        proof {
            reveal_strlit("0");
        }
        "0"
    } else if d == 1 {
        proof {
            reveal_strlit("1");
        }
        "1"
    } else if d == 2 {
        proof {
            reveal_strlit("2");
        }
        "2"
    } else if d == 3 {
        proof {
            reveal_strlit("3");
        }
        "3"
    } else if d == 4 {
        proof {
            reveal_strlit("4");
        }
        "4"
    } else if d == 5 {
        proof {
            reveal_strlit("5");
        }
        "5"
    } else if d == 6 {
        proof {
            reveal_strlit("6");
        }
        "6"
    } else if d == 7 {
        proof {
            reveal_strlit("7");
        }
        "7"
    } else if d == 8 {
        proof {
            reveal_strlit("8");
        }
        "8"
    } else {
        proof {
            reveal_strlit("9");
        }
        "9"
    }
}

/// Append a number's last two decimal digits.
fn append_two_digits(s: &mut String, n: u32)
    ensures
        final(s)@ == old(s)@ + two_digits(n as int),
{
    s.append(digit_str(n / 10 % 10));
    s.append(digit_str(n % 10));
    proof {
        assert(final(s)@ =~= old(s)@ + two_digits(n as int));
    }
}

/// The deterministic archive file name for a given UTC timestamp.
pub fn archive_name(y: u32, mo: u32, d: u32, h: u32, mi: u32, s: u32) -> (r: String)
    ensures
        r@ == archive_name_spec(y as int, mo as int, d as int, h as int, mi as int, s as int),
{
    let mut out = String::from_str("search_results_");
    out.append(digit_str(y / 1000 % 10));
    out.append(digit_str(y / 100 % 10));
    out.append(digit_str(y / 10 % 10));
    out.append(digit_str(y % 10));
    append_two_digits(&mut out, mo);
    append_two_digits(&mut out, d);
    append_two_digits(&mut out, h);
    append_two_digits(&mut out, mi);
    append_two_digits(&mut out, s);
    out.append(".zip");
    proof {
        assert(out@ =~= archive_name_spec(
            y as int,
            mo as int,
            d as int,
            h as int,
            mi as int,
            s as int,
        ));
    }
    out
}

/// Relies on std::time::SystemTime::now, chrono::DateTime::from_timestamp
/// and the Datelike and Timelike accessors: the current UTC date and
/// time, as year, month, day, hour, minute and second, read without any
/// panic.  A clock before the Unix epoch or outside chrono's range falls
/// back to the epoch itself, 1970-01-01 00:00:00.  chrono documents the
/// accessor ranges: month 1 to 12, day of month 1 to 31, hour 0 to 23,
/// minute and second 0 to 59 (a leap second surfaces through the
/// nanosecond accessor, never here).  Nothing else is assumed of the
/// clock.
#[verifier::external_body]
fn utc_now_parts() -> (r: (i32, u32, u32, u32, u32, u32))
    ensures
        1 <= r.1 <= 12,
        1 <= r.2 <= 31,
        r.3 < 24,
        r.4 < 60,
        r.5 < 60,
{
    let now = match std::time::SystemTime::now().duration_since(std::time::UNIX_EPOCH) {
        Ok(d) => chrono::DateTime::from_timestamp(d.as_secs() as i64, 0)
            .unwrap_or(chrono::DateTime::UNIX_EPOCH),
        Err(_) => chrono::DateTime::UNIX_EPOCH,
    };
    (now.year(), now.month(), now.day(), now.hour(), now.minute(), now.second())
}

/// The archive file name for the moment the archive is built: the
/// fixed prefix, the current UTC timestamp, and the fixed suffix.  A
/// clock year before the common era shows as 0000; one past ten
/// thousand shows as its last four digits.
pub fn timestamped_archive_name() -> (r: String)
    ensures
        r@.len() == 33,
        exists|y: int, mo: int, d: int, h: int, mi: int, s: int|
            {
                &&& 1 <= mo <= 12
                &&& 1 <= d <= 31
                &&& 0 <= h < 24
                &&& 0 <= mi < 60
                &&& 0 <= s < 60
                &&& r@ == archive_name_spec(y, mo, d, h, mi, s)
            },
{
    let (y, mo, d, h, mi, s) = utc_now_parts();
    let yc: u32 = if y < 0 {
        0
    } else {
        y as u32
    };
    let r = archive_name(yc, mo, d, h, mi, s);
    proof {
        reveal_strlit("search_results_");
        reveal_strlit(".zip");
        assert(r@.len() == 33);
        assert({
            &&& 1 <= (mo as int) <= 12
            &&& 1 <= (d as int) <= 31
            &&& 0 <= (h as int) < 24
            &&& 0 <= (mi as int) < 60
            &&& 0 <= (s as int) < 60
            &&& r@ == archive_name_spec(
                yc as int,
                mo as int,
                d as int,
                h as int,
                mi as int,
                s as int,
            )
        });
    }
    r
}

} // verus!
