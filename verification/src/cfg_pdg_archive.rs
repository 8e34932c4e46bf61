//! Header fields of the CFG/PDG archive file.

use vstd::prelude::*;
use crate::blast_engine_snapshot::{le_u32_at, le_u32_exec, le_u64_at, le_u64_exec, u64_le, utf8_string, utf8_text_of};

verus! {

/// Current archive format version (TOC + per-record payloads).
pub const ARCHIVE_VERSION: u32 = 2;

/// Legacy archive format (monolithic payload).
pub const ARCHIVE_VERSION_V1: u32 = 1;

/// Magic bytes for CFG/PDG archive files (`RBCP`).
pub open spec fn archive_magic() -> Seq<u8> {
    seq![0x52u8, 0x42u8, 0x43u8, 0x50u8]
}

/// Length of the digest recorded in a v2 archive image (bytes 8..12, little-endian).
pub open spec fn v2_digest_len(image: Seq<u8>) -> int {
    le_u32_at(image, 8) as int
}

/// Graph digest recorded in a v2 archive image: a non-empty UTF-8 text after its length.
pub open spec fn v2_digest(image: Seq<u8>) -> Option<Seq<char>> {
    if image.len() < 12 || v2_digest_len(image) == 0 {
        None
    } else {
        utf8_text_of(image.subrange(12, 12 + v2_digest_len(image)))
    }
}

fn le_u32_bytes(b: &[u8], k: usize) -> (r: u32)
    requires
        k + 4 <= b@.len(),
    ensures
        r == le_u32_at(b@, k as int),
{
    (b[k] as u32) | ((b[k + 1] as u32) << 8u32) | ((b[k + 2] as u32) << 16u32) | ((b[k + 3] as u32) << 24u32)
}

/// Read the graph digest recorded in a v2 archive image.
pub fn read_v2_digest(mmap: &[u8]) -> (r: Option<String>)
    requires
        mmap@.len() >= 12 ==> 12 + v2_digest_len(mmap@) <= mmap@.len(),
    ensures
        match r {
            Some(s) => v2_digest(mmap@) == Some(s@),
            None => v2_digest(mmap@) is None,
        },
{
    if mmap.len() < 12 {
        return None;
    }
    let digest_len = le_u32_bytes(mmap, 8) as usize;
    if digest_len == 0 {
        return None;
    }
    let bytes = vstd::slice::slice_subrange(mmap, 12, 12 + digest_len);
    utf8_string(bytes)
}


/// Why an archive image cannot be read or written.
#[derive(Debug, Clone, Copy, PartialEq, Eq, Structural)]
pub enum ArchiveError {
    /// Shorter than its fixed header.
    Truncated,
    /// The table of contents runs past the end.
    TocTruncated,
    /// The table of contents is too large to address.
    TocOverflow,
    /// The payload of a v1 image runs past the end.
    PayloadTruncated,
    /// A record runs past the end.
    RecordTruncated,
    /// The file does not start with the archive magic.
    BadMagic,
    /// An archive version this reader does not know.
    UnsupportedVersion(u32),
    /// A record's bytes are longer than a `u32` can count.
    RecordTooLarge,
    /// The graph digest is longer than a `u32` can count.
    DigestTooLong,
    /// More records than a `u32` can count.
    TooManyRecords,
}

/// One entry of the table of contents: record id, offset into the payload, length.
#[derive(Debug, Clone, Copy, PartialEq, Eq, Structural)]
pub struct TocEntry {
    pub id: u128,
    pub offset: u64,
    pub length: u32,
}

/// Powers of 256.
pub open spec fn p256(m: nat) -> nat
    decreases m,
{
    if m == 0 {
        1
    } else {
        256 * p256((m - 1) as nat)
    }
}

/// The number whose big-endian bytes are `b[k..k + m]`.
pub open spec fn be_acc(b: Seq<u8>, k: int, m: nat) -> nat
    decreases m,
{
    if m == 0 {
        0
    } else {
        be_acc(b, k, (m - 1) as nat) * 256 + b[k + m - 1] as nat
    }
}

/// The id stored big-endian in the 16 bytes at `b[k]`.
pub open spec fn be_u128_at(b: Seq<u8>, k: int) -> u128 {
    be_acc(b, k, 16) as u128
}

proof fn lemma_be_acc_bound(b: Seq<u8>, k: int, m: nat)
    ensures
        be_acc(b, k, m) < p256(m),
    decreases m,
{
    if m > 0 {
        lemma_be_acc_bound(b, k, (m - 1) as nat);
        let a = be_acc(b, k, (m - 1) as nat);
        let x = b[k + m - 1] as nat;
        let p = p256((m - 1) as nat);
        assert(a * 256 + x < p * 256) by (nonlinear_arith)
            requires
                a < p,
                x < 256,
        ;
    }
}

pub(crate) proof fn lemma_p256_16()
    ensures
        p256(16) == 0x1_0000_0000_0000_0000_0000_0000_0000_0000,
{
    assert(p256(0) == 1);
    assert(p256(1) == 0x100);
    assert(p256(2) == 0x1_0000);
    assert(p256(3) == 0x100_0000);
    assert(p256(4) == 0x1_0000_0000);
    assert(p256(5) == 0x100_0000_0000);
    assert(p256(6) == 0x1_0000_0000_0000);
    assert(p256(7) == 0x100_0000_0000_0000);
    assert(p256(8) == 0x1_0000_0000_0000_0000);
    assert(p256(9) == 0x100_0000_0000_0000_0000);
    assert(p256(10) == 0x1_0000_0000_0000_0000_0000);
    assert(p256(11) == 0x100_0000_0000_0000_0000_0000);
    assert(p256(12) == 0x1_0000_0000_0000_0000_0000_0000);
    assert(p256(13) == 0x100_0000_0000_0000_0000_0000_0000);
    assert(p256(14) == 0x1_0000_0000_0000_0000_0000_0000_0000);
    assert(p256(15) == 0x100_0000_0000_0000_0000_0000_0000_0000);
}

/// The id stored big-endian at `b[k]` (as `uuid::Uuid::from_bytes(..).as_u128()` reads it).
pub(crate) fn be_u128_exec(b: &[u8], k: usize) -> (r: u128)
    requires
        k + 16 <= b@.len(),
    ensures
        r == be_u128_at(b@, k as int),
{
    let mut acc: u128 = 0;
    let mut i: usize = 0;
    let n = b.len();
    while i < 16
        invariant
            i <= 16,
            n == b@.len(),
            k + 16 <= n,
            acc as nat == be_acc(b@, k as int, i as nat),
        decreases 16 - i,
    {
        proof {
            lemma_be_acc_bound(b@, k as int, i as nat + 1);
            lemma_p256_16();
            lemma_p256_mono(i as nat + 1, 16);
        }
        acc = acc * 256 + b[k + i] as u128;
        i = i + 1;
    }
    acc
}

proof fn lemma_p256_mono(a: nat, b: nat)
    requires
        a <= b,
    ensures
        p256(a) <= p256(b),
    decreases b - a,
{
    if a < b {
        lemma_p256_mono(a, (b - 1) as nat);
    }
}

/// Size in bytes of one table-of-contents entry.
pub open spec fn toc_entry_size() -> int {
    28
}

/// The table-of-contents entries stored from `start`.
pub open spec fn toc_entries(b: Seq<u8>, start: int, count: int) -> Seq<TocEntry> {
    Seq::new(count as nat, |i: int| TocEntry {
        id: be_u128_at(b, start + 28 * i),
        offset: le_u64_at(b, start + 28 * i + 16),
        length: le_u32_at(b, start + 28 * i + 24),
    })
}

/// The header of a v2 image: digest length, table of contents, start of the payload.
pub open spec fn v2_header(b: Seq<u8>) -> Result<(int, Seq<TocEntry>, int), ArchiveError> {
    if b.len() < 12 {
        Err(ArchiveError::Truncated)
    } else {
        let header_end = 12 + le_u32_at(b, 8) as int;
        if b.len() < header_end + 4 {
            Err(ArchiveError::TocTruncated)
        } else {
            let count = le_u32_at(b, header_end) as int;
            if count * 28 > usize::MAX {
                Err(ArchiveError::TocOverflow)
            } else if b.len() < header_end + 4 + count * 28 {
                Err(ArchiveError::TocTruncated)
            } else {
                Ok((le_u32_at(b, 8) as int, toc_entries(b, header_end + 4, count), header_end + 4 + count * 28))
            }
        }
    }
}

/// The image's sizes can be added up in a `usize` (the end of the table of contents).
pub open spec fn v2_sums_fit(b: Seq<u8>) -> bool {
    b.len() >= 12 + le_u32_at(b, 8) as int + 4 ==> 12 + le_u32_at(b, 8) as int + 4 + le_u32_at(b, 12 + le_u32_at(b, 8) as int) as int * 28 <= usize::MAX
}

/// Parse the header and table of contents of a v2 image.
pub fn parse_v2_header(mmap: &[u8]) -> (r: Result<(usize, Vec<TocEntry>, usize), ArchiveError>)
    requires
        mmap@.len() >= 12 ==> 12 + le_u32_at(mmap@, 8) as int + 4 <= usize::MAX,
        v2_sums_fit(mmap@),
    ensures
        match (r, v2_header(mmap@)) {
            (Ok((d, toc, p)), Ok((sd, stoc, sp))) => d == sd && toc@ == stoc && p == sp,
            (Err(e), Err(se)) => e == se,
            _ => false,
        },
{
    if mmap.len() < 12 {
        return Err(ArchiveError::Truncated);
    }
    let digest_len = le_u32_exec(mmap, 8) as usize;
    let header_end = 12 + digest_len;
    if mmap.len() < header_end + 4 {
        return Err(ArchiveError::TocTruncated);
    }
    let count = le_u32_exec(mmap, header_end) as usize;
    let toc_bytes = match count.checked_mul(28) {
        Some(t) => t,
        None => {
            return Err(ArchiveError::TocOverflow);
        },
    };
    let toc_start = header_end + 4;
    let payload_start = toc_start + toc_bytes;
    if mmap.len() < payload_start {
        return Err(ArchiveError::TocTruncated);
    }
    let mut toc: Vec<TocEntry> = Vec::new();
    let mut pos = toc_start;
    let mut i: usize = 0;
    while i < count
        invariant
            i <= count,
            pos == toc_start + 28 * i,
            toc_start + 28 * count == payload_start,
            payload_start <= mmap@.len(),
            toc@ == toc_entries(mmap@, toc_start as int, count as int).take(i as int),
        decreases count - i,
    {
        let id = be_u128_exec(mmap, pos);
        let offset = le_u64_exec(mmap, pos + 16);
        let length = le_u32_exec(mmap, pos + 24);
        toc.push(TocEntry { id, offset, length });
        proof {
            assert(toc@ =~= toc_entries(mmap@, toc_start as int, count as int).take(i as int + 1));
        }
        pos = pos + 28;
        i = i + 1;
    }
    proof {
        assert(toc_entries(mmap@, toc_start as int, count as int).take(count as int) =~= toc_entries(mmap@, toc_start as int, count as int));
    }
    Ok((digest_len, toc, payload_start))
}


/// Where the records of an archive image lie; the caller deserializes the bytes.
pub enum ArchiveFrames {
    /// A v1 image: one payload `[payload_start, payload_end)` holding the whole archive.
    V1 { payload_start: usize, payload_end: usize },
    /// A v2 image: the graph digest and, per table entry in table order, the record id and
    /// its byte range `[start, end)`.
    V2 { graph_digest: Option<String>, records: Vec<(u128, usize, usize)> },
}

/// Length of the payload of a v1 image.
pub open spec fn v1_payload_len(b: Seq<u8>) -> int {
    le_u64_at(b, 8) as usize as int
}

/// Byte ranges of the records listed in `toc`, relative to the image.
pub open spec fn record_ranges(toc: Seq<TocEntry>, ps: int) -> Seq<(u128, int, int)> {
    toc.map_values(|e: TocEntry| (e.id, ps + e.offset as usize as int, ps + e.offset as usize as int + e.length as int))
}

/// Some record of the table runs past the end of the image.
pub open spec fn some_record_truncated(b: Seq<u8>, toc: Seq<TocEntry>, ps: int) -> bool {
    exists|i: int| 0 <= i < toc.len() && #[trigger] record_ranges(toc, ps)[i].2 > b.len()
}

/// Why the image cannot be framed, if it cannot.
pub open spec fn frames_error(b: Seq<u8>) -> Option<ArchiveError> {
    if b.len() < 8 {
        Some(ArchiveError::Truncated)
    } else if b.subrange(0, 4) != archive_magic() {
        Some(ArchiveError::BadMagic)
    } else if le_u32_at(b, 4) == 1 {
        if b.len() < 16 {
            Some(ArchiveError::Truncated)
        } else if b.len() < 16 + v1_payload_len(b) {
            Some(ArchiveError::PayloadTruncated)
        } else {
            None
        }
    } else if le_u32_at(b, 4) != 2 {
        Some(ArchiveError::UnsupportedVersion(le_u32_at(b, 4)))
    } else {
        match v2_header(b) {
            Err(e) => Some(e),
            Ok((_, toc, ps)) => if some_record_truncated(b, toc, ps) {
                Some(ArchiveError::RecordTruncated)
            } else {
                None
            },
        }
    }
}

/// The offsets of the image can be added up in a `usize`.
pub open spec fn frames_fit(b: Seq<u8>) -> bool {
    &&& b.len() >= 12 ==> 12 + le_u32_at(b, 8) as int + 4 <= usize::MAX
    &&& v2_sums_fit(b)
    &&& b.len() >= 16 && le_u32_at(b, 4) == 1 ==> 16 + v1_payload_len(b) <= usize::MAX
    &&& forall|toc: Seq<TocEntry>, d: int, ps: int| v2_header(b) == Ok::<(int, Seq<TocEntry>, int), ArchiveError>((d, toc, ps))
        ==> forall|i: int| 0 <= i < toc.len() ==> #[trigger] record_ranges(toc, ps)[i].2 <= usize::MAX
}

/// Frame an archive image: check the magic and version, then locate the payload (v1) or the
/// digest and every record listed in the table of contents (v2).
pub fn parse_payload(mmap: &[u8]) -> (r: Result<ArchiveFrames, ArchiveError>)
    requires
        frames_fit(mmap@),
    ensures
        match r {
            Err(e) => frames_error(mmap@) == Some(e),
            Ok(ArchiveFrames::V1 { payload_start, payload_end }) => frames_error(mmap@) is None && le_u32_at(mmap@, 4) == 1
                && payload_start == 16 && payload_end == 16 + v1_payload_len(mmap@),
            Ok(ArchiveFrames::V2 { graph_digest, records }) => frames_error(mmap@) is None && le_u32_at(mmap@, 4) == 2
                && (match graph_digest {
                    Some(d) => v2_digest(mmap@) == Some(d@),
                    None => v2_digest(mmap@) is None,
                })
                && (match v2_header(mmap@) {
                    Ok((_, toc, ps)) => records@.map_values(|x: (u128, usize, usize)| (x.0, x.1 as int, x.2 as int)) == record_ranges(toc, ps),
                    Err(_) => false,
                }),
        },
{
    if mmap.len() < 8 {
        return Err(ArchiveError::Truncated);
    }
    if !(mmap[0] == 0x52u8 && mmap[1] == 0x42u8 && mmap[2] == 0x43u8 && mmap[3] == 0x50u8) {
        proof {
            if mmap@.subrange(0, 4) == archive_magic() {
                assert(mmap@.subrange(0, 4)[0] == mmap@[0]);
                assert(mmap@.subrange(0, 4)[1] == mmap@[1]);
                assert(mmap@.subrange(0, 4)[2] == mmap@[2]);
                assert(mmap@.subrange(0, 4)[3] == mmap@[3]);
            }
        }
        return Err(ArchiveError::BadMagic);
    }
    proof {
        assert(mmap@.subrange(0, 4) =~= archive_magic());
    }
    let version = le_u32_exec(mmap, 4);
    if version == ARCHIVE_VERSION_V1 {
        if mmap.len() < 16 {
            return Err(ArchiveError::Truncated);
        }
        let payload_len = le_u64_exec(mmap, 8) as usize;
        if mmap.len() < 16 + payload_len {
            return Err(ArchiveError::PayloadTruncated);
        }
        return Ok(ArchiveFrames::V1 { payload_start: 16, payload_end: 16 + payload_len });
    }
    if version != ARCHIVE_VERSION {
        return Err(ArchiveError::UnsupportedVersion(version));
    }
    let (_digest_len, toc, payload_start) = match parse_v2_header(mmap) {
        Ok(h) => h,
        Err(e) => {
            return Err(e);
        },
    };
    let ghost ranges = record_ranges(toc@, payload_start as int);
    let mut records: Vec<(u128, usize, usize)> = Vec::new();
    let mut i: usize = 0;
    while i < toc.len()
        invariant
            frames_fit(mmap@),
            mmap@.len() >= 8,
            mmap@.subrange(0, 4) == archive_magic(),
            le_u32_at(mmap@, 4) == 2,
            v2_header(mmap@) == Ok::<(int, Seq<TocEntry>, int), ArchiveError>((_digest_len as int, toc@, payload_start as int)),
            ranges == record_ranges(toc@, payload_start as int),
            i <= toc@.len(),
            records@.len() == i,
            forall|j: int| 0 <= j < i ==> (#[trigger] records@[j]).0 == ranges[j].0 && records@[j].1 as int == ranges[j].1 && records@[j].2 as int == ranges[j].2,
            forall|j: int| 0 <= j < i ==> (#[trigger] ranges[j]).2 <= mmap@.len(),
        decreases toc.len() - i,
    {
        let entry = toc[i];
        proof {
            assert(ranges[i as int] == (entry.id, payload_start + entry.offset as usize as int, payload_start + entry.offset as usize as int + entry.length as int));
            assert(record_ranges(toc@, payload_start as int)[i as int].2 <= usize::MAX);
        }
        let start = payload_start + entry.offset as usize;
        let end = start + entry.length as usize;
        if end > mmap.len() {
            proof {
                assert(some_record_truncated(mmap@, toc@, payload_start as int));
            }
            return Err(ArchiveError::RecordTruncated);
        }
        records.push((entry.id, start, end));
        i = i + 1;
    }
    proof {
        assert(records@.map_values(|x: (u128, usize, usize)| (x.0, x.1 as int, x.2 as int)) =~= ranges);
        assert(!some_record_truncated(mmap@, toc@, payload_start as int));
    }
    let graph_digest = read_v2_digest(mmap);
    Ok(ArchiveFrames::V2 { graph_digest, records })
}


/// Little-endian bytes of `w`.
pub open spec fn u32_le(w: u32) -> Seq<u8> {
    seq![(w & 0xff) as u8, ((w >> 8u32) & 0xff) as u8, ((w >> 16u32) & 0xff) as u8, ((w >> 24u32) & 0xff) as u8]
}

/// Big-endian bytes of `id`.
pub open spec fn be_bytes(id: u128) -> Seq<u8> {
    Seq::new(16, |i: int| ((id as nat / p256((15 - i) as nat)) % 256) as u8)
}

pub(crate) proof fn lemma_u32_le_read(b: Seq<u8>, k: int, w: u32)
    requires
        0 <= k,
        k + 4 <= b.len(),
        b.subrange(k, k + 4) == u32_le(w),
    ensures
        le_u32_at(b, k) == w,
{
    let e = u32_le(w);
    assert(b[k] == e[0] && b[k + 1] == e[1] && b[k + 2] == e[2] && b[k + 3] == e[3]) by {
        assert(b.subrange(k, k + 4)[0] == b[k]);
        assert(b.subrange(k, k + 4)[1] == b[k + 1]);
        assert(b.subrange(k, k + 4)[2] == b[k + 2]);
        assert(b.subrange(k, k + 4)[3] == b[k + 3]);
    }
    let b0 = (w & 0xff) as u8;
    let b1 = ((w >> 8u32) & 0xff) as u8;
    let b2 = ((w >> 16u32) & 0xff) as u8;
    let b3 = ((w >> 24u32) & 0xff) as u8;
    assert((b0 as u32) | ((b1 as u32) << 8u32) | ((b2 as u32) << 16u32) | ((b3 as u32) << 24u32) == w) by (bit_vector)
        requires
            b0 == (w & 0xff) as u8,
            b1 == ((w >> 8u32) & 0xff) as u8,
            b2 == ((w >> 16u32) & 0xff) as u8,
            b3 == ((w >> 24u32) & 0xff) as u8,
    ;
}

pub(crate) proof fn lemma_u64_le_read(b: Seq<u8>, k: int, w: u64)
    requires
        0 <= k,
        k + 8 <= b.len(),
        b.subrange(k, k + 8) == u64_le(w),
    ensures
        le_u64_at(b, k) == w,
{
    let e = u64_le(w);
    assert forall|i: int| 0 <= i < 8 implies b[k + i] == #[trigger] e[i] by {
        assert(b.subrange(k, k + 8)[i] == b[k + i]);
    }
    assert(b[k] == e[0] && b[k + 1] == e[1] && b[k + 2] == e[2] && b[k + 3] == e[3]);
    assert(b[k + 4] == e[4] && b[k + 5] == e[5] && b[k + 6] == e[6] && b[k + 7] == e[7]);
    let b0 = (w & 0xff) as u8;
    let b1 = ((w >> 8u64) & 0xff) as u8;
    let b2 = ((w >> 16u64) & 0xff) as u8;
    let b3 = ((w >> 24u64) & 0xff) as u8;
    let b4 = ((w >> 32u64) & 0xff) as u8;
    let b5 = ((w >> 40u64) & 0xff) as u8;
    let b6 = ((w >> 48u64) & 0xff) as u8;
    let b7 = ((w >> 56u64) & 0xff) as u8;
    assert((b0 as u64) | ((b1 as u64) << 8u64) | ((b2 as u64) << 16u64) | ((b3 as u64) << 24u64) | ((b4 as u64) << 32u64) | ((b5
        as u64) << 40u64) | ((b6 as u64) << 48u64) | ((b7 as u64) << 56u64) == w) by (bit_vector)
        requires
            b0 == (w & 0xff) as u8,
            b1 == ((w >> 8u64) & 0xff) as u8,
            b2 == ((w >> 16u64) & 0xff) as u8,
            b3 == ((w >> 24u64) & 0xff) as u8,
            b4 == ((w >> 32u64) & 0xff) as u8,
            b5 == ((w >> 40u64) & 0xff) as u8,
            b6 == ((w >> 48u64) & 0xff) as u8,
            b7 == ((w >> 56u64) & 0xff) as u8,
    ;
}

/// Reading `m` big-endian bytes of `id` back gives `id` without its last `16 - m` bytes.
pub(crate) proof fn lemma_be_prefix(b: Seq<u8>, k: int, id: u128, m: nat)
    requires
        m <= 16,
        0 <= k,
        k + 16 <= b.len(),
        b.subrange(k, k + 16) == be_bytes(id),
    ensures
        be_acc(b, k, m) == id as nat / p256((16 - m) as nat),
    decreases m,
{
    if m == 0 {
        lemma_p256_16();
        assert(id as nat / p256(16) == 0) by {
            vstd::arithmetic::div_mod::lemma_basic_div(id as int, p256(16) as int);
        }
    } else {
        lemma_be_prefix(b, k, id, (m - 1) as nat);
        let p = p256((16 - m) as nat);
        assert(p256((16 - (m - 1)) as nat) == 256 * p);
        assert(b[k + m - 1] == be_bytes(id)[m - 1]) by {
            assert(b.subrange(k, k + 16)[m - 1] == b[k + m - 1]);
        }
        lemma_p256_pos((16 - m) as nat);
        let x = id as nat / p;
        assert(be_bytes(id)[m - 1] as nat == x % 256);
        vstd::arithmetic::div_mod::lemma_div_denominator(id as int, p as int, 256);
        vstd::arithmetic::div_mod::lemma_fundamental_div_mod(x as int, 256);
        assert(id as nat / p256((16 - (m - 1)) as nat) == x / 256) by {
            vstd::arithmetic::mul::lemma_mul_is_commutative(p as int, 256);
        }
    }
}

proof fn lemma_p256_pos(m: nat)
    ensures
        p256(m) > 0,
    decreases m,
{
    if m > 0 {
        lemma_p256_pos((m - 1) as nat);
    }
}

pub(crate) proof fn lemma_be_read(b: Seq<u8>, k: int, id: u128)
    requires
        0 <= k,
        k + 16 <= b.len(),
        b.subrange(k, k + 16) == be_bytes(id),
    ensures
        be_u128_at(b, k) == id,
{
    lemma_be_prefix(b, k, id, 16);
    assert(p256(0) == 1);
    assert(id as nat / 1 == id as nat) by (nonlinear_arith);
    assert(be_acc(b, k, 16) == id as nat);
}


/// Payload offset of record `i`: the lengths of the records before it.
pub open spec fn rec_offset(recs: Seq<(u128, Seq<u8>)>, i: int) -> int
    decreases i,
{
    if i <= 0 {
        0
    } else {
        rec_offset(recs, i - 1) + recs[i - 1].1.len()
    }
}

/// Table-of-contents entry bytes of record `i`: id, payload offset, length.
pub open spec fn toc_entry_image(recs: Seq<(u128, Seq<u8>)>, i: int) -> Seq<u8> {
    be_bytes(recs[i].0) + u64_le(rec_offset(recs, i) as u64) + u32_le(recs[i].1.len() as u32)
}

pub open spec fn toc_image(recs: Seq<(u128, Seq<u8>)>, i: int) -> Seq<u8>
    decreases i,
{
    if i <= 0 {
        Seq::empty()
    } else {
        toc_image(recs, i - 1) + toc_entry_image(recs, i - 1)
    }
}

pub open spec fn payload_image(recs: Seq<(u128, Seq<u8>)>, i: int) -> Seq<u8>
    decreases i,
{
    if i <= 0 {
        Seq::empty()
    } else {
        payload_image(recs, i - 1) + recs[i - 1].1
    }
}

/// A v2 archive image: magic, version, digest length and bytes, record count, table of
/// contents, then the records' bytes back to back.
pub open spec fn archive_image(digest: Seq<u8>, recs: Seq<(u128, Seq<u8>)>) -> Seq<u8> {
    archive_magic() + u32_le(2) + u32_le(digest.len() as u32) + digest + u32_le(recs.len() as u32) + toc_image(recs, recs.len() as int)
        + payload_image(recs, recs.len() as int)
}

/// The sizes of an image fit its fields and a `usize`.
pub open spec fn image_fits(digest: Seq<u8>, recs: Seq<(u128, Seq<u8>)>) -> bool {
    &&& digest.len() <= u32::MAX
    &&& recs.len() <= u32::MAX
    &&& forall|i: int| 0 <= i < recs.len() ==> (#[trigger] recs[i]).1.len() <= u32::MAX
    &&& rec_offset(recs, recs.len() as int) <= u64::MAX
    &&& 16 + digest.len() + 28 * recs.len() + rec_offset(recs, recs.len() as int) <= usize::MAX
}

proof fn lemma_rec_offset_mono(recs: Seq<(u128, Seq<u8>)>, i: int, j: int)
    requires
        0 <= i <= j,
    ensures
        rec_offset(recs, i) <= rec_offset(recs, j),
    decreases j - i,
{
    if i < j {
        lemma_rec_offset_mono(recs, i, j - 1);
    }
}

proof fn lemma_toc_image(recs: Seq<(u128, Seq<u8>)>, m: int, i: int)
    requires
        0 <= i < m,
    ensures
        toc_image(recs, m).len() == 28 * m,
        toc_image(recs, m).subrange(28 * i, 28 * i + 28) == toc_entry_image(recs, i),
    decreases m,
{
    lemma_toc_len(recs, m - 1);
    if i < m - 1 {
        lemma_toc_image(recs, m - 1, i);
        assert(toc_image(recs, m).subrange(28 * i, 28 * i + 28) =~= toc_image(recs, m - 1).subrange(28 * i, 28 * i + 28));
    } else {
        assert(toc_image(recs, m).subrange(28 * i, 28 * i + 28) =~= toc_entry_image(recs, i));
    }
}

proof fn lemma_toc_len(recs: Seq<(u128, Seq<u8>)>, m: int)
    ensures
        m >= 0 ==> toc_image(recs, m).len() == 28 * m,
    decreases m,
{
    if m > 0 {
        lemma_toc_len(recs, m - 1);
    }
}

proof fn lemma_payload_image(recs: Seq<(u128, Seq<u8>)>, m: int, i: int)
    requires
        0 <= i < m,
    ensures
        payload_image(recs, m).len() == rec_offset(recs, m),
        payload_image(recs, m).subrange(rec_offset(recs, i), rec_offset(recs, i) + recs[i].1.len()) == recs[i].1,
    decreases m,
{
    lemma_payload_len(recs, m - 1);
    if i < m - 1 {
        lemma_payload_image(recs, m - 1, i);
        lemma_rec_offset_mono(recs, i + 1, m - 1);
        assert(rec_offset(recs, i + 1) == rec_offset(recs, i) + recs[i].1.len());
        assert(payload_image(recs, m) == payload_image(recs, m - 1) + recs[m - 1].1);
        assert(rec_offset(recs, i) >= 0) by {
            lemma_rec_offset_mono(recs, 0, i);
        }
        assert(payload_image(recs, m).subrange(rec_offset(recs, i), rec_offset(recs, i) + recs[i].1.len()) =~= payload_image(recs, m - 1).subrange(rec_offset(recs, i), rec_offset(recs, i) + recs[i].1.len()));
    } else {
        assert(payload_image(recs, m).subrange(rec_offset(recs, i), rec_offset(recs, i) + recs[i].1.len()) =~= recs[i].1);
    }
}

proof fn lemma_payload_len(recs: Seq<(u128, Seq<u8>)>, m: int)
    ensures
        m >= 0 ==> payload_image(recs, m).len() == rec_offset(recs, m),
    decreases m,
{
    if m > 0 {
        lemma_payload_len(recs, m - 1);
    }
}


/// The table of contents written for `recs`.
pub open spec fn toc_of(recs: Seq<(u128, Seq<u8>)>) -> Seq<TocEntry> {
    Seq::new(recs.len(), |i: int| TocEntry { id: recs[i].0, offset: rec_offset(recs, i) as u64, length: recs[i].1.len() as u32 })
}

proof fn lemma_concat3_sub(a: Seq<u8>, b: Seq<u8>, c: Seq<u8>, x: int, y: int)
    requires
        0 <= x <= y <= b.len(),
    ensures
        (a + b + c).subrange(a.len() + x, a.len() + y) == b.subrange(x, y),
{
    assert((a + b + c).subrange(a.len() + x, a.len() + y) =~= b.subrange(x, y));
}

/// Header of an archive image.
pub open spec fn image_head(digest: Seq<u8>, recs: Seq<(u128, Seq<u8>)>) -> Seq<u8> {
    archive_magic() + u32_le(2) + u32_le(digest.len() as u32) + digest + u32_le(recs.len() as u32)
}

proof fn lemma_image_parts(digest: Seq<u8>, recs: Seq<(u128, Seq<u8>)>)
    requires
        image_fits(digest, recs),
    ensures
        archive_image(digest, recs) == image_head(digest, recs) + toc_image(recs, recs.len() as int) + payload_image(recs, recs.len() as int),
        image_head(digest, recs).len() == 16 + digest.len(),
        toc_image(recs, recs.len() as int).len() == 28 * recs.len(),
        payload_image(recs, recs.len() as int).len() == rec_offset(recs, recs.len() as int),
        archive_image(digest, recs).len() == 16 + digest.len() + 28 * recs.len() + rec_offset(recs, recs.len() as int),
{
    lemma_toc_len(recs, recs.len() as int);
    lemma_payload_len(recs, recs.len() as int);
}

proof fn lemma_image_header(digest: Seq<u8>, recs: Seq<(u128, Seq<u8>)>)
    requires
        image_fits(digest, recs),
    ensures
        archive_image(digest, recs).subrange(0, 4) == archive_magic(),
        le_u32_at(archive_image(digest, recs), 4) == 2,
        le_u32_at(archive_image(digest, recs), 8) as int == digest.len(),
        le_u32_at(archive_image(digest, recs), 12 + digest.len() as int) as int == recs.len(),
        archive_image(digest, recs).subrange(12, 12 + digest.len() as int) == digest,
{
    lemma_image_parts(digest, recs);
    let img = archive_image(digest, recs);
    let dl = digest.len() as int;
    let n = recs.len() as int;
    assert(img.subrange(0, 4) =~= archive_magic());
    assert(img.subrange(4, 8) =~= u32_le(2));
    lemma_u32_le_read(img, 4, 2);
    assert(img.subrange(8, 12) =~= u32_le(dl as u32));
    lemma_u32_le_read(img, 8, dl as u32);
    assert(img.subrange(12 + dl, 16 + dl) =~= u32_le(n as u32));
    lemma_u32_le_read(img, 12 + dl, n as u32);
    assert(img.subrange(12, 12 + dl) =~= digest);
}

proof fn lemma_image_toc_entry(digest: Seq<u8>, recs: Seq<(u128, Seq<u8>)>, i: int)
    requires
        image_fits(digest, recs),
        0 <= i < recs.len(),
    ensures
        toc_entries(archive_image(digest, recs), 16 + digest.len() as int, recs.len() as int)[i] == toc_of(recs)[i],
{
    lemma_image_parts(digest, recs);
    let img = archive_image(digest, recs);
    let head = image_head(digest, recs);
    let toc = toc_image(recs, recs.len() as int);
    let pay = payload_image(recs, recs.len() as int);
    lemma_toc_image(recs, recs.len() as int, i);
    let at = 16 + digest.len() + 28 * i;
    let e = toc_entry_image(recs, i);
    lemma_concat3_sub(head, toc, pay, 28 * i, 28 * i + 16);
    lemma_concat3_sub(head, toc, pay, 28 * i + 16, 28 * i + 24);
    lemma_concat3_sub(head, toc, pay, 28 * i + 24, 28 * i + 28);
    assert(toc.subrange(28 * i, 28 * i + 16) =~= e.subrange(0, 16));
    assert(toc.subrange(28 * i + 16, 28 * i + 24) =~= e.subrange(16, 24));
    assert(toc.subrange(28 * i + 24, 28 * i + 28) =~= e.subrange(24, 28));
    assert(e.subrange(0, 16) =~= be_bytes(recs[i].0));
    assert(e.subrange(16, 24) =~= u64_le(rec_offset(recs, i) as u64));
    assert(e.subrange(24, 28) =~= u32_le(recs[i].1.len() as u32));
    lemma_be_read(img, at, recs[i].0);
    lemma_u64_le_read(img, at + 16, rec_offset(recs, i) as u64);
    lemma_u32_le_read(img, at + 24, recs[i].1.len() as u32);
}

proof fn lemma_image_record(digest: Seq<u8>, recs: Seq<(u128, Seq<u8>)>, i: int)
    requires
        image_fits(digest, recs),
        0 <= i < recs.len(),
    ensures
        ({
            let ps: int = 16 + digest.len() as int + 28 * recs.len() as int;
            let r = record_ranges(toc_of(recs), ps)[i];
            &&& r.2 <= archive_image(digest, recs).len()
            &&& r.2 <= usize::MAX
            &&& archive_image(digest, recs).subrange(r.1, r.2) == recs[i].1
        }),
{
    lemma_image_parts(digest, recs);
    let head = image_head(digest, recs);
    let toc = toc_image(recs, recs.len() as int);
    let pay = payload_image(recs, recs.len() as int);
    let n = recs.len() as int;
    lemma_payload_image(recs, n, i);
    lemma_rec_offset_mono(recs, 0, i);
    lemma_rec_offset_mono(recs, i + 1, n);
    let off = rec_offset(recs, i);
    assert(rec_offset(recs, i + 1) == off + recs[i].1.len());
    assert(off as u64 as usize as int == off);
    assert((recs[i].1.len() as u32) as int == recs[i].1.len());
    let ps: int = 16 + digest.len() as int + 28 * n;
    let ht = head + toc;
    assert(ht.len() == ps);
    assert(archive_image(digest, recs) == ht + pay);
    assert((ht + pay).subrange(ps + off, ps + off + recs[i].1.len()) =~= pay.subrange(off, off + recs[i].1.len()));
}

/// Reading back an archive image: its header holds the digest length and the table of
/// contents written for the records, every record's byte range holds exactly that record's
/// bytes, and the digest reads back as the text written (none when it is empty).
pub proof fn lemma_archive_round_trip(digest: Seq<u8>, recs: Seq<(u128, Seq<u8>)>)
    requires
        image_fits(digest, recs),
    ensures
        ({
            let img = archive_image(digest, recs);
            let ps: int = 16 + digest.len() as int + 28 * recs.len() as int;
            &&& frames_fit(img)
            &&& frames_error(img) is None
            &&& le_u32_at(img, 4) == 2
            &&& v2_header(img) == Ok::<(int, Seq<TocEntry>, int), ArchiveError>((digest.len() as int, toc_of(recs), ps))
            &&& forall|i: int| 0 <= i < recs.len() ==> img.subrange(#[trigger] record_ranges(toc_of(recs), ps)[i].1, record_ranges(toc_of(recs), ps)[i].2) == recs[i].1
            &&& v2_digest(img) == (if digest.len() == 0 { None } else { utf8_text_of(digest) })
        }),
{
    let n = recs.len() as int;
    let dl = digest.len() as int;
    let img = archive_image(digest, recs);
    let ts = 16 + dl;
    let ps: int = ts + 28 * n;
    lemma_image_v2_header(digest, recs);
    let ranges = record_ranges(toc_of(recs), ps);
    assert forall|i: int| 0 <= i < n implies img.subrange(#[trigger] ranges[i].1, ranges[i].2) == recs[i].1 && ranges[i].2 <= img.len() && ranges[i].2 <= usize::MAX by {
        lemma_image_record(digest, recs, i);
    }
    assert forall|i: int| 0 <= i < toc_of(recs).len() implies #[trigger] record_ranges(toc_of(recs), ps)[i].2 <= img.len() by {
        lemma_image_record(digest, recs, i);
    }
    assert(!some_record_truncated(img, toc_of(recs), ps));
    assert(frames_fit(img)) by {
        lemma_image_parts(digest, recs);
        lemma_image_header(digest, recs);
        assert forall|tc: Seq<TocEntry>, d: int, p: int| v2_header(img) == Ok::<(int, Seq<TocEntry>, int), ArchiveError>((d, tc, p))
            implies forall|i: int| 0 <= i < tc.len() ==> #[trigger] record_ranges(tc, p)[i].2 <= usize::MAX by {
            assert(tc == toc_of(recs) && p == ps);
        }
    }
    assert(frames_error(img) is None) by {
        lemma_image_parts(digest, recs);
        lemma_image_header(digest, recs);
    }
    assert(v2_digest(img) == (if digest.len() == 0 { None } else { utf8_text_of(digest) })) by {
        lemma_image_parts(digest, recs);
        lemma_image_header(digest, recs);
    }
}

proof fn lemma_image_v2_header(digest: Seq<u8>, recs: Seq<(u128, Seq<u8>)>)
    requires
        image_fits(digest, recs),
    ensures
        v2_header(archive_image(digest, recs)) == Ok::<(int, Seq<TocEntry>, int), ArchiveError>((digest.len() as int, toc_of(recs), 16 + digest.len() as int + 28 * recs.len() as int)),
        le_u32_at(archive_image(digest, recs), 4) == 2,
{
    let n = recs.len() as int;
    let dl = digest.len() as int;
    let img = archive_image(digest, recs);
    let ts = 16 + dl;
    assert(toc_entries(img, ts, n) =~= toc_of(recs)) by {
        assert forall|i: int| 0 <= i < n implies #[trigger] toc_entries(img, ts, n)[i] == toc_of(recs)[i] by {
            lemma_image_toc_entry(digest, recs, i);
        }
    }
    lemma_image_sizes(digest, recs);
}

proof fn lemma_image_sizes(digest: Seq<u8>, recs: Seq<(u128, Seq<u8>)>)
    requires
        image_fits(digest, recs),
    ensures
        archive_image(digest, recs).len() >= 16 + digest.len() + 28 * recs.len(),
        le_u32_at(archive_image(digest, recs), 4) == 2,
        le_u32_at(archive_image(digest, recs), 8) as int == digest.len(),
        le_u32_at(archive_image(digest, recs), 12 + digest.len() as int) as int == recs.len(),
        28 * recs.len() <= usize::MAX,
{
    lemma_image_parts(digest, recs);
    lemma_image_header(digest, recs);
    assert(rec_offset(recs, recs.len() as int) >= 0) by {
        lemma_rec_offset_mono(recs, 0, recs.len() as int);
    }
}


/// The records handed to the writer, each id with the bytes of its record.
pub open spec fn records_view(v: Seq<(u128, Vec<u8>)>) -> Seq<(u128, Seq<u8>)> {
    Seq::new(v.len(), |i: int| (v[i].0, v[i].1@))
}

/// Record ids never decrease along `s`.
pub open spec fn ids_ascending(s: Seq<(u128, Seq<u8>)>) -> bool {
    forall|i: int, j: int| 0 <= i < j < s.len() ==> s[i].0 <= s[j].0
}

/// `s` holds the records of `recs`, ordered by id.
pub open spec fn in_id_order(s: Seq<(u128, Seq<u8>)>, recs: Seq<(u128, Seq<u8>)>) -> bool {
    ids_ascending(s) && s.to_multiset() == recs.to_multiset()
}

/// Total length of the records' bytes.
pub open spec fn records_len(recs: Seq<(u128, Seq<u8>)>) -> int {
    rec_offset(recs, recs.len() as int)
}

/// Why an archive of `recs` with graph digest `digest` cannot be written, if it cannot.
pub open spec fn encode_error(digest: Seq<u8>, recs: Seq<(u128, Seq<u8>)>) -> Option<ArchiveError> {
    if exists|i: int| 0 <= i < recs.len() && (#[trigger] recs[i]).1.len() > u32::MAX {
        Some(ArchiveError::RecordTooLarge)
    } else if digest.len() > u32::MAX {
        Some(ArchiveError::DigestTooLong)
    } else if recs.len() > u32::MAX {
        Some(ArchiveError::TooManyRecords)
    } else {
        None
    }
}

pub(crate) fn push_u32_le(out: &mut Vec<u8>, w: u32)
    ensures
        final(out)@ == old(out)@ + u32_le(w),
{
    out.push((w & 0xff) as u8);
    out.push(((w >> 8u32) & 0xff) as u8);
    out.push(((w >> 16u32) & 0xff) as u8);
    out.push(((w >> 24u32) & 0xff) as u8);
    assert(final(out)@ =~= old(out)@ + u32_le(w));
}

pub(crate) fn push_u64_le(out: &mut Vec<u8>, w: u64)
    ensures
        final(out)@ == old(out)@ + u64_le(w),
{
    out.push((w & 0xff) as u8);
    out.push(((w >> 8u64) & 0xff) as u8);
    out.push(((w >> 16u64) & 0xff) as u8);
    out.push(((w >> 24u64) & 0xff) as u8);
    out.push(((w >> 32u64) & 0xff) as u8);
    out.push(((w >> 40u64) & 0xff) as u8);
    out.push(((w >> 48u64) & 0xff) as u8);
    out.push(((w >> 56u64) & 0xff) as u8);
    assert(final(out)@ =~= old(out)@ + u64_le(w));
}

pub(crate) fn push_be_u128(out: &mut Vec<u8>, id: u128)
    ensures
        final(out)@ == old(out)@ + be_bytes(id),
{
    let ghost start = out@;
    proof {
        lemma_p256_16();
    }
    let mut p: u128 = 0x0100_0000_0000_0000_0000_0000_0000_0000;
    assert(p256(16) == 256 * p256(15));
    let mut i: usize = 0;
    while i < 16
        invariant
            i <= 16,
            i < 16 ==> p as nat == p256((15 - i) as nat),
            out@.len() == start.len() + i,
            forall|j: int| 0 <= j < start.len() ==> out@[j] == start[j],
            forall|j: int| 0 <= j < i ==> out@[start.len() + j] == be_bytes(id)[j],
        decreases 16 - i,
    {
        proof {
            lemma_p256_pos((15 - i) as nat);
        }
        let b = ((id / p) % 256) as u8;
        out.push(b);
        if i < 15 {
            assert(p256((15 - i) as nat) == 256 * p256((14 - i) as nat));
            p = p / 256;
        }
        i = i + 1;
    }
    assert(out@ =~= start + be_bytes(id));
}

fn push_bytes(out: &mut Vec<u8>, bytes: &[u8])
    ensures
        final(out)@ == old(out)@ + bytes@,
{
    let ghost start = out@;
    let n = bytes.len();
    let mut i: usize = 0;
    while i < n
        invariant
            i <= n,
            n == bytes@.len(),
            out@ == start + bytes@.subrange(0, i as int),
        decreases n - i,
    {
        out.push(bytes[i]);
        i = i + 1;
        assert(out@ =~= start + bytes@.subrange(0, i as int));
    }
    assert(bytes@.subrange(0, n as int) =~= bytes@);
}


proof fn lemma_rec_offset_insert(s: Seq<(u128, Seq<u8>)>, p: int, x: (u128, Seq<u8>), m: int)
    requires
        0 <= p <= s.len(),
        0 <= m <= s.len() + 1,
    ensures
        m <= p ==> rec_offset(s.insert(p, x), m) == rec_offset(s, m),
        m > p ==> rec_offset(s.insert(p, x), m) == rec_offset(s, m - 1) + x.1.len(),
    decreases m,
{
    if m > 0 {
        lemma_rec_offset_insert(s, p, x, m - 1);
    }
}

proof fn lemma_multiset_insert<A>(s: Seq<A>, p: int, x: A)
    requires
        0 <= p <= s.len(),
    ensures
        s.insert(p, x).to_multiset() == s.to_multiset().insert(x),
{
    broadcast use vstd::seq_lib::group_to_multiset_ensures;
    let a = s.subrange(0, p);
    let b = s.subrange(p, s.len() as int);
    assert(s.insert(p, x) =~= a.push(x) + b);
    assert(s =~= a + b);
    vstd::seq_lib::lemma_multiset_commutative(a.push(x), b);
    vstd::seq_lib::lemma_multiset_commutative(a, b);
    assert(a.push(x).to_multiset() =~= a.to_multiset().insert(x));
    assert(s.insert(p, x).to_multiset() =~= s.to_multiset().insert(x));
}

proof fn lemma_multiset_prepend<A>(s: Seq<A>, k: int)
    requires
        0 < k <= s.len(),
    ensures
        s.subrange(k - 1, s.len() as int).to_multiset() == s.subrange(k, s.len() as int).to_multiset().insert(s[k - 1]),
{
    lemma_multiset_insert(s.subrange(k, s.len() as int), 0, s[k - 1]);
    assert(s.subrange(k, s.len() as int).insert(0, s[k - 1]) =~= s.subrange(k - 1, s.len() as int));
}

/// Order the records by id; a record goes after every record already placed whose id is no
/// larger than its own.
fn sort_by_id(records: Vec<(u128, Vec<u8>)>) -> (r: Vec<(u128, Vec<u8>)>)
    ensures
        in_id_order(records_view(r@), records_view(records@)),
        records_len(records_view(r@)) == records_len(records_view(records@)),
{
    let ghost orig = records_view(records@);
    let mut rest = records;
    let mut out: Vec<(u128, Vec<u8>)> = Vec::new();
    proof {
        assert(records_view(rest@) =~= orig.subrange(0, rest@.len() as int));
        assert(orig.subrange(orig.len() as int, orig.len() as int) =~= Seq::<(u128, Seq<u8>)>::empty());
        assert(records_view(out@) =~= Seq::<(u128, Seq<u8>)>::empty());
    }
    while rest.len() > 0
        invariant
            rest@.len() <= orig.len(),
            records_view(rest@) == orig.subrange(0, rest@.len() as int),
            ids_ascending(records_view(out@)),
            records_view(out@).to_multiset() == orig.subrange(rest@.len() as int, orig.len() as int).to_multiset(),
            records_len(records_view(out@)) + rec_offset(orig, rest@.len() as int) == records_len(orig),
        decreases rest.len(),
    {
        let ghost k = rest@.len() as int;
        let ghost ov = records_view(out@);
        let ghost rv = records_view(rest@);
        let item = rest.pop().unwrap();
        let ghost xv = (item.0, item.1@);
        assert(orig[k - 1] == xv) by {
            assert(rv[k - 1] == orig.subrange(0, k)[k - 1]);
        }
        let id = item.0;
        let n = out.len();
        let mut pos: usize = 0;
        while pos < n && out[pos].0 <= id
            invariant
                pos <= n,
                n == out@.len(),
                forall|j: int| 0 <= j < pos ==> (#[trigger] out@[j]).0 <= id,
            decreases n - pos,
        {
            pos = pos + 1;
        }
        let ghost before = out@;
        out.insert(pos, item);
        proof {
            let nv = records_view(out@);
            assert(nv =~= ov.insert(pos as int, xv));
            assert(forall|j: int| 0 <= j < pos ==> (#[trigger] ov[j]).0 <= id) by {
                assert(forall|j: int| 0 <= j < pos ==> ov[j] == (before[j].0, before[j].1@));
            }
            assert(forall|j: int| pos <= j < n ==> (#[trigger] ov[j]).0 > id) by {
                if pos < n {
                    assert(ov[pos as int].0 == before[pos as int].0);
                }
            }
            assert(ids_ascending(nv));
            lemma_multiset_insert(ov, pos as int, xv);
            lemma_multiset_prepend(orig, k);
            lemma_rec_offset_insert(ov, pos as int, xv, ov.len() + 1int);
            assert(records_view(rest@) =~= orig.subrange(0, rest@.len() as int));
        }
    }
    proof {
        assert(orig.subrange(0, orig.len() as int) =~= orig);
    }
    out
}


/// Compose the bytes of a v2 archive: magic, version, graph digest, then the records ordered
/// by id, listed in a table of contents (id, payload offset, length) ahead of their bytes.
pub fn encode_archive(digest: &str, records: Vec<(u128, Vec<u8>)>) -> (r: Result<Vec<u8>, ArchiveError>)
    requires
        16 + vstd::utf8::encode_utf8(digest@).len() + 28 * records@.len() + records_len(records_view(records@)) <= usize::MAX,
    ensures
        match r {
            Ok(b) => {
                &&& encode_error(vstd::utf8::encode_utf8(digest@), records_view(records@)) is None
                &&& exists|s: Seq<(u128, Seq<u8>)>| in_id_order(s, records_view(records@)) && #[trigger] archive_image(vstd::utf8::encode_utf8(digest@), s) == b@
            },
            Err(e) => encode_error(vstd::utf8::encode_utf8(digest@), records_view(records@)) == Some(e),
        },
{
    let ghost rv = records_view(records@);
    let d = digest.as_bytes();
    let mut i: usize = 0;
    let n = records.len();
    while i < n
        invariant
            i <= n,
            n == records@.len(),
            rv == records_view(records@),
            forall|j: int| 0 <= j < i ==> (#[trigger] rv[j]).1.len() <= u32::MAX,
        decreases n - i,
    {
        if records[i].1.len() as u64 > 0xFFFF_FFFFu64 {
            assert(rv[i as int].1.len() > u32::MAX);
            return Err(ArchiveError::RecordTooLarge);
        }
        i = i + 1;
    }
    if d.len() as u64 > 0xFFFF_FFFFu64 {
        return Err(ArchiveError::DigestTooLong);
    }
    if n as u64 > 0xFFFF_FFFFu64 {
        return Err(ArchiveError::TooManyRecords);
    }
    let sorted = sort_by_id(records);
    let ghost sv = records_view(sorted@);
    proof {
        broadcast use vstd::seq_lib::group_to_multiset_ensures;
        assert forall|j: int| 0 <= j < sv.len() implies (#[trigger] sv[j]).1.len() <= u32::MAX by {
            assert(sv.contains(sv[j]));
            assert(sv.to_multiset().count(sv[j]) > 0);
            assert(rv.contains(sv[j]));
        }
        assert(sv.to_multiset().len() == rv.to_multiset().len());
        assert(sv.len() == rv.len());
    }
    let mut out: Vec<u8> = Vec::new();
    out.push(0x52u8);
    out.push(0x42u8);
    out.push(0x43u8);
    out.push(0x50u8);
    push_u32_le(&mut out, ARCHIVE_VERSION);
    push_u32_le(&mut out, d.len() as u32);
    push_bytes(&mut out, d);
    push_u32_le(&mut out, n as u32);
    let ghost head = out@;
    assert(head =~= archive_magic() + u32_le(2) + u32_le(d@.len() as u32) + d@ + u32_le(sv.len() as u32));
    proof {
        lemma_rec_offset_mono(sv, 0, sv.len() as int);
    }
    let mut offset: u64 = 0;
    let mut k: usize = 0;
    while k < n
        invariant
            k <= n,
            n == sorted@.len(),
            sv == records_view(sorted@),
            forall|j: int| 0 <= j < sv.len() ==> (#[trigger] sv[j]).1.len() <= u32::MAX,
            16 + d@.len() + 28 * n + records_len(sv) <= usize::MAX,
            offset == rec_offset(sv, k as int),
            out@ == head + toc_image(sv, k as int),
        decreases n - k,
    {
        proof {
            lemma_rec_offset_mono(sv, k as int + 1, n as int);
        }
        let len = sorted[k].1.len();
        assert(len == sv[k as int].1.len());
        push_be_u128(&mut out, sorted[k].0);
        push_u64_le(&mut out, offset);
        push_u32_le(&mut out, len as u32);
        assert(out@ =~= head + toc_image(sv, k as int + 1));
        offset = offset + len as u64;
        k = k + 1;
    }
    let ghost mid = out@;
    let mut k: usize = 0;
    while k < n
        invariant
            k <= n,
            n == sorted@.len(),
            sv == records_view(sorted@),
            out@ == mid + payload_image(sv, k as int),
        decreases n - k,
    {
        push_bytes(&mut out, sorted[k].1.as_slice());
        assert(out@ =~= mid + payload_image(sv, k as int + 1));
        k = k + 1;
    }
    assert(out@ =~= archive_image(vstd::utf8::encode_utf8(digest@), sv));
    Ok(out)
}

} // verus!
