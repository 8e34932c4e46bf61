//! Offset index of the per-function analysis pack: one data file of concatenated records and
//! an index of (function id, offset, length) entries, written in id order.

use vstd::prelude::*;
use crate::blast_engine_snapshot::{le_u32_at, le_u32_exec, le_u64_at, le_u64_exec, u64_le};
use crate::cfg_pdg_archive::{be_bytes, be_u128_at, be_u128_exec, lemma_be_read, lemma_u32_le_read, lemma_u64_le_read,
    push_be_u128, push_u32_le, push_u64_le, u32_le};

verus! {

/// Version written into the pack index.
pub const PACK_VERSION: u32 = 1;

/// Where one record lies in the data file.
#[derive(Debug, Clone, Copy, PartialEq, Eq, Structural)]
pub struct PackIndexEntry {
    /// Function id.
    pub id: u128,
    /// Byte offset in the data file.
    pub offset: u64,
    /// Record length in bytes.
    pub length: u32,
}

/// Why the pack could not be written or read.
#[derive(Debug, Clone, Copy, PartialEq, Eq, Structural)]
pub enum PackError {
    /// A record is longer than a `u32` can say.
    RecordTooLarge,
    /// More entries than a `u32` can count.
    IndexTooLarge,
    /// The index does not start with `RBAP`.
    BadMagic,
    /// The index has another version.
    BadVersion { version: u32 },
    /// The index ends before its entries do.
    Truncated,
    /// A record offset does not fit a `usize`.
    OffsetOutOfRange,
    /// Offset plus length does not fit a `usize`.
    LengthOverflow,
    /// A record reaches past the end of the data file.
    PastEnd,
}

/// The index magic `RBAP`.
pub open spec fn pack_magic() -> Seq<u8> {
    seq![0x52u8, 0x42u8, 0x41u8, 0x50u8]
}

/// Bytes of one index entry: the id big-endian, then offset and length little-endian.
pub open spec fn entry_bytes(e: PackIndexEntry) -> Seq<u8> {
    be_bytes(e.id) + u64_le(e.offset) + u32_le(e.length)
}

/// Bytes of all entries, in order.
pub open spec fn entries_bytes(s: Seq<PackIndexEntry>) -> Seq<u8>
    decreases s.len(),
{
    if s.len() == 0 {
        Seq::empty()
    } else {
        entries_bytes(s.drop_last()) + entry_bytes(s.last())
    }
}

/// The whole index file for the entries `s`.
pub open spec fn index_bytes(s: Seq<PackIndexEntry>) -> Seq<u8> {
    pack_magic() + u32_le(PACK_VERSION) + u32_le(s.len() as u32) + entries_bytes(s)
}

/// Ids strictly increase.
pub open spec fn ids_sorted(s: Seq<PackIndexEntry>) -> bool {
    forall|i: int, j: int| 0 <= i < j < s.len() ==> s[i].id < s[j].id
}

/// Offset and length of each id, the later entry winning for a repeated id.
pub open spec fn entries_map(s: Seq<PackIndexEntry>) -> Map<u128, (u64, u32)>
    decreases s.len(),
{
    if s.len() == 0 {
        Map::empty()
    } else {
        entries_map(s.drop_last()).insert(s.last().id, (s.last().offset, s.last().length))
    }
}

/// The entry stored at byte `k` of an index.
pub open spec fn entry_at(b: Seq<u8>, k: int) -> PackIndexEntry {
    PackIndexEntry { id: be_u128_at(b, k), offset: le_u64_at(b, k + 16), length: le_u32_at(b, k + 24) }
}

proof fn lemma_entries_len(s: Seq<PackIndexEntry>)
    ensures
        entries_bytes(s).len() == 28 * s.len(),
    decreases s.len(),
{
    if s.len() > 0 {
        lemma_entries_len(s.drop_last());
    }
}

/// Entry `i` of `s` is read back from its place in the entry bytes.
proof fn lemma_entries_read(s: Seq<PackIndexEntry>, pre: Seq<u8>, i: int)
    requires
        0 <= i < s.len(),
    ensures
        entry_at(pre + entries_bytes(s), pre.len() + 28 * i) == s[i],
{
    let b = pre + entries_bytes(s);
    let k = pre.len() + 28 * i;
    lemma_entries_len(s);
    lemma_entries_slice(s, pre, i);
    let e = s[i];
    let sl = b.subrange(k, k + 28);
    assert(sl == entry_bytes(e));
    assert(b.subrange(k, k + 16) =~= sl.subrange(0, 16));
    assert(sl.subrange(0, 16) =~= be_bytes(e.id));
    assert(b.subrange(k + 16, k + 24) =~= sl.subrange(16, 24));
    assert(sl.subrange(16, 24) =~= u64_le(e.offset));
    assert(b.subrange(k + 24, k + 28) =~= sl.subrange(24, 28));
    assert(sl.subrange(24, 28) =~= u32_le(e.length));
    lemma_be_read(b, k, e.id);
    lemma_u64_le_read(b, k + 16, e.offset);
    lemma_u32_le_read(b, k + 24, e.length);
}

proof fn lemma_entries_slice(s: Seq<PackIndexEntry>, pre: Seq<u8>, i: int)
    requires
        0 <= i < s.len(),
    ensures
        (pre + entries_bytes(s)).subrange(pre.len() + 28 * i, pre.len() + 28 * i + 28) == entry_bytes(s[i]),
    decreases s.len(),
{
    lemma_entries_len(s.drop_last());
    let b = pre + entries_bytes(s);
    let k = pre.len() + 28 * i;
    assert(b =~= (pre + entries_bytes(s.drop_last())) + entry_bytes(s.last()));
    if i < s.len() - 1 {
        lemma_entries_slice(s.drop_last(), pre, i);
        let b2 = pre + entries_bytes(s.drop_last());
        assert(b.subrange(k, k + 28) =~= b2.subrange(k, k + 28));
    } else {
        assert(b.subrange(k, k + 28) =~= entry_bytes(s.last()));
    }
}

/// Index writer state: the entries so far, kept sorted by id with one entry per id, and the
/// offset of the next record.
pub struct AnalysisPackWriter {
    entries: Vec<PackIndexEntry>,
    offset: u64,
}

impl AnalysisPackWriter {
    /// Entries by id.
    pub closed spec fn index(&self) -> Map<u128, (u64, u32)> {
        entries_map(self.entries@)
    }

    /// Offset of the next record.
    pub closed spec fn next_offset(&self) -> u64 {
        self.offset
    }

    /// Entries are sorted by id.
    pub closed spec fn wf(&self) -> bool {
        ids_sorted(self.entries@)
    }

    /// A writer with no records.
    pub fn new() -> (r: Self)
        ensures
            r.wf(),
            r.index() == Map::<u128, (u64, u32)>::empty(),
            r.next_offset() == 0,
    {
        AnalysisPackWriter { entries: Vec::new(), offset: 0 }
    }

    /// Record that `len` bytes for `id` were appended to the data file: an error when the
    /// length does not fit a `u32`; otherwise `id` now points at the current offset (a repeated
    /// id is replaced) and the offset grows by `len`.
    pub fn append(&mut self, id: u128, len: usize) -> (r: Result<(), PackError>)
        requires
            old(self).wf(),
            len <= u32::MAX ==> old(self).next_offset() + len <= u64::MAX,
        ensures
            final(self).wf(),
            len > u32::MAX ==> r == Err::<(), PackError>(PackError::RecordTooLarge) && final(self).index() == old(self).index()
                && final(self).next_offset() == old(self).next_offset(),
            len <= u32::MAX ==> r is Ok && final(self).index() == old(self).index().insert(id, (old(self).next_offset(), len as u32))
                && final(self).next_offset() == old(self).next_offset() + len,
    {
        if len > 4_294_967_295usize {
            return Err(PackError::RecordTooLarge);
        }
        let e = PackIndexEntry { id, offset: self.offset, length: len as u32 };
        let ghost old_entries = self.entries@;
        let mut i: usize = 0;
        while i < self.entries.len() && self.entries[i].id < id
            invariant
                i <= self.entries@.len(),
                self.entries@ == old_entries,
                ids_sorted(old_entries),
                forall|j: int| 0 <= j < i ==> old_entries[j].id < id,
            decreases self.entries.len() - i,
        {
            i = i + 1;
        }
        if i < self.entries.len() && self.entries[i].id == id {
            self.entries.set(i, e);
            proof {
                lemma_map_replace(old_entries, i as int, e);
            }
        } else {
            self.entries.insert(i, e);
            proof {
                lemma_map_insert_sorted(old_entries, i as int, e);
            }
        }
        self.offset = self.offset + len as u64;
        Ok(())
    }

    /// Bytes of the index file: magic, version, entry count, then the entries in id order;
    /// an error when there are more entries than a `u32` counts.
    pub fn index_file(&self) -> (r: Result<Vec<u8>, PackError>)
        requires
            self.wf(),
        ensures
            r matches Ok(b) ==> exists|s: Seq<PackIndexEntry>| ids_sorted(s) && entries_map(s) == self.index()
                && #[trigger] index_bytes(s) == b@,
            r is Err ==> r == Err::<Vec<u8>, PackError>(PackError::IndexTooLarge) && self.index().len() > u32::MAX,
            r is Ok ==> self.index().len() <= u32::MAX,
    {
        proof {
            lemma_map_len_sorted(self.entries@);
        }
        if self.entries.len() > 4_294_967_295usize {
            return Err(PackError::IndexTooLarge);
        }
        let mut out: Vec<u8> = vec![0x52u8, 0x42u8, 0x41u8, 0x50u8];
        push_u32_le(&mut out, PACK_VERSION);
        push_u32_le(&mut out, self.entries.len() as u32);
        let ghost head = out@;
        let mut i: usize = 0;
        while i < self.entries.len()
            invariant
                i <= self.entries@.len(),
                out@ == head + entries_bytes(self.entries@.take(i as int)),
            decreases self.entries.len() - i,
        {
            let e = self.entries[i];
            push_be_u128(&mut out, e.id);
            push_u64_le(&mut out, e.offset);
            push_u32_le(&mut out, e.length);
            proof {
                assert(self.entries@.take(i as int + 1).drop_last() =~= self.entries@.take(i as int));
                assert(out@ =~= head + entries_bytes(self.entries@.take(i as int + 1)));
            }
            i = i + 1;
        }
        proof {
            assert(self.entries@.take(i as int) =~= self.entries@);
            assert(head =~= pack_magic() + u32_le(PACK_VERSION) + u32_le(self.entries@.len() as u32));
            assert(out@ =~= index_bytes(self.entries@));
        }
        Ok(out)
    }
}

proof fn lemma_map_replace(s: Seq<PackIndexEntry>, i: int, e: PackIndexEntry)
    requires
        ids_sorted(s),
        0 <= i < s.len(),
        s[i].id == e.id,
    ensures
        ids_sorted(s.update(i, e)),
        entries_map(s.update(i, e)) == entries_map(s).insert(e.id, (e.offset, e.length)),
    decreases s.len(),
{
    let u = s.update(i, e);
    if i == s.len() - 1 {
        assert(u.drop_last() =~= s.drop_last());
        lemma_map_absent(s.drop_last(), e.id);
        assert(entries_map(u) =~= entries_map(s).insert(e.id, (e.offset, e.length)));
    } else {
        assert(u.drop_last() =~= s.drop_last().update(i, e));
        lemma_map_replace(s.drop_last(), i, e);
        assert(s.last().id != e.id);
        assert(entries_map(u) =~= entries_map(s).insert(e.id, (e.offset, e.length)));
    }
}

/// An id above every id of `s` (or absent from it) is not in its map.
proof fn lemma_map_absent(s: Seq<PackIndexEntry>, id: u128)
    requires
        forall|j: int| 0 <= j < s.len() ==> s[j].id != id,
    ensures
        !entries_map(s).contains_key(id),
    decreases s.len(),
{
    if s.len() > 0 {
        lemma_map_absent(s.drop_last(), id);
    }
}

proof fn lemma_map_insert_sorted(s: Seq<PackIndexEntry>, i: int, e: PackIndexEntry)
    requires
        ids_sorted(s),
        0 <= i <= s.len(),
        forall|j: int| 0 <= j < i ==> s[j].id < e.id,
        i < s.len() ==> s[i].id > e.id,
    ensures
        ids_sorted(s.insert(i, e)),
        entries_map(s.insert(i, e)) == entries_map(s).insert(e.id, (e.offset, e.length)),
    decreases s.len(),
{
    let u = s.insert(i, e);
    if i == s.len() {
        assert(u.drop_last() =~= s);
        assert(u.last() == e);
    } else {
        assert(u.drop_last() =~= s.drop_last().insert(i, e));
        lemma_map_insert_sorted(s.drop_last(), i, e);
        assert(u.last() == s.last());
        assert(s.last().id != e.id);
        assert(entries_map(u) =~= entries_map(s).insert(e.id, (e.offset, e.length)));
    }
}

/// With distinct ids, the map has as many keys as there are entries.
proof fn lemma_map_len_sorted(s: Seq<PackIndexEntry>)
    requires
        ids_sorted(s),
    ensures
        entries_map(s).dom().finite(),
        entries_map(s).len() == s.len(),
    decreases s.len(),
{
    if s.len() > 0 {
        lemma_map_len_sorted(s.drop_last());
        assert forall|j: int| 0 <= j < s.drop_last().len() implies s.drop_last()[j].id != s.last().id by {}
        lemma_map_absent(s.drop_last(), s.last().id);
    }
}

/// Read a pack index: its magic, version and count, then the entries; an error names the
/// first check that fails.
pub fn read_pack_index(b: &[u8]) -> (r: Result<Vec<PackIndexEntry>, PackError>)
    ensures
        b@.len() < 4 ==> r == Err::<Vec<PackIndexEntry>, PackError>(PackError::Truncated),
        b@.len() >= 4 && b@.take(4) != pack_magic() ==> r == Err::<Vec<PackIndexEntry>, PackError>(PackError::BadMagic),
        b@.len() >= 4 && b@.take(4) == pack_magic() && b@.len() < 8 ==> r == Err::<Vec<PackIndexEntry>, PackError>(PackError::Truncated),
        b@.len() >= 8 && b@.take(4) == pack_magic() && le_u32_at(b@, 4) != PACK_VERSION
            ==> r == Err::<Vec<PackIndexEntry>, PackError>(PackError::BadVersion { version: le_u32_at(b@, 4) }),
        b@.len() >= 8 && b@.take(4) == pack_magic() && le_u32_at(b@, 4) == PACK_VERSION
            && b@.len() < 12 + 28 * (if b@.len() >= 12 { le_u32_at(b@, 8) as int } else { 0 })
            ==> r == Err::<Vec<PackIndexEntry>, PackError>(PackError::Truncated),
        b@.len() >= 12 && b@.take(4) == pack_magic() && le_u32_at(b@, 4) == PACK_VERSION && b@.len() >= 12 + 28 * le_u32_at(b@, 8)
            ==> (r matches Ok(v) && v@.len() == le_u32_at(b@, 8)
                && forall|i: int| 0 <= i < v@.len() ==> #[trigger] v@[i] == entry_at(b@, 12 + 28 * i)),
{
    if b.len() < 4 {
        return Err(PackError::Truncated);
    }
    if !(b[0] == 0x52u8 && b[1] == 0x42u8 && b[2] == 0x41u8 && b[3] == 0x50u8) {
        proof {
            assert(b@.take(4) != pack_magic()) by {
                if b@.take(4) == pack_magic() {
                    assert(b@.take(4)[0] == b@[0] && b@.take(4)[1] == b@[1] && b@.take(4)[2] == b@[2] && b@.take(4)[3] == b@[3]);
                }
            }
        }
        return Err(PackError::BadMagic);
    }
    proof {
        assert(b@.take(4) =~= pack_magic());
    }
    if b.len() < 8 {
        return Err(PackError::Truncated);
    }
    let version = le_u32_exec(b, 4);
    if version != PACK_VERSION {
        return Err(PackError::BadVersion { version });
    }
    if b.len() < 12 {
        return Err(PackError::Truncated);
    }
    let count32 = le_u32_exec(b, 8);
    if (b.len() as u64) < 12 + 28 * (count32 as u64) {
        return Err(PackError::Truncated);
    }
    let count = count32 as usize;
    let mut out: Vec<PackIndexEntry> = Vec::new();
    let mut i: usize = 0;
    let mut k: usize = 12;
    while i < count
        invariant
            i <= count,
            k == 12 + 28 * i,
            count == le_u32_at(b@, 8),
            b@.len() >= 12 + 28 * count,
            b@.len() <= usize::MAX,
            b@.take(4) == pack_magic(),
            le_u32_at(b@, 4) == PACK_VERSION,
            out@.len() == i,
            forall|j: int| 0 <= j < i ==> #[trigger] out@[j] == entry_at(b@, 12 + 28 * j),
        decreases count - i,
    {
        let id = be_u128_exec(b, k);
        let offset = le_u64_exec(b, k + 16);
        let length = le_u32_exec(b, k + 24);
        out.push(PackIndexEntry { id, offset, length });
        i = i + 1;
        k = k + 28;
    }
    Ok(out)
}

/// Byte range of a record in a data file of `data_len` bytes.
pub fn record_range(e: PackIndexEntry, data_len: usize) -> (r: Result<(usize, usize), PackError>)
    ensures
        e.offset > usize::MAX ==> r == Err::<(usize, usize), PackError>(PackError::OffsetOutOfRange),
        e.offset <= usize::MAX && e.offset + e.length > usize::MAX ==> r == Err::<(usize, usize), PackError>(PackError::LengthOverflow),
        e.offset + e.length <= usize::MAX && e.offset + e.length > data_len ==> r == Err::<(usize, usize), PackError>(PackError::PastEnd),
        e.offset + e.length <= data_len ==> r == Ok::<(usize, usize), PackError>((e.offset as usize, (e.offset + e.length) as usize)),
{
    if e.offset > usize::MAX as u64 {
        return Err(PackError::OffsetOutOfRange);
    }
    let start = e.offset as usize;
    let len = e.length as usize;
    if start > usize::MAX - len {
        return Err(PackError::LengthOverflow);
    }
    let end = start + len;
    if end > data_len {
        return Err(PackError::PastEnd);
    }
    Ok((start, end))
}

/// Reading back the index file of sorted entries gives the same entries, hence the same map.
pub proof fn lemma_pack_index_round_trip(s: Seq<PackIndexEntry>)
    requires
        s.len() <= u32::MAX,
    ensures
        index_bytes(s).len() == 12 + 28 * s.len(),
        index_bytes(s).take(4) == pack_magic(),
        le_u32_at(index_bytes(s), 4) == PACK_VERSION,
        le_u32_at(index_bytes(s), 8) == s.len(),
        forall|i: int| 0 <= i < s.len() ==> #[trigger] entry_at(index_bytes(s), 12 + 28 * i) == s[i],
{
    let b = index_bytes(s);
    let pre = pack_magic() + u32_le(PACK_VERSION) + u32_le(s.len() as u32);
    assert(b == pre + entries_bytes(s));
    lemma_entries_len(s);
    assert(b.take(4) =~= pack_magic());
    assert(b.subrange(4, 8) =~= u32_le(PACK_VERSION));
    assert(b.subrange(8, 12) =~= u32_le(s.len() as u32));
    lemma_u32_le_read(b, 4, PACK_VERSION);
    lemma_u32_le_read(b, 8, s.len() as u32);
    assert forall|i: int| 0 <= i < s.len() implies #[trigger] entry_at(index_bytes(s), 12 + 28 * i) == s[i] by {
        lemma_entries_read(s, pre, i);
    }
}

/// Whatever a read of a written index returns is the written entries, so the reader sees the
/// writer's map.
pub proof fn lemma_written_index_reads_back(s: Seq<PackIndexEntry>, v: Seq<PackIndexEntry>)
    requires
        s.len() <= u32::MAX,
        v.len() == s.len(),
        forall|i: int| 0 <= i < v.len() ==> #[trigger] v[i] == entry_at(index_bytes(s), 12 + 28 * i),
    ensures
        v == s,
        entries_map(v) == entries_map(s),
{
    lemma_pack_index_round_trip(s);
    assert forall|i: int| 0 <= i < v.len() implies v[i] == s[i] by {
        assert(entry_at(index_bytes(s), 12 + 28 * i) == s[i]);
    }
    assert(v =~= s);
}

} // verus!
