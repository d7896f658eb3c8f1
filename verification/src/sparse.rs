//! The legacy Aero sparse disk format, `AEROSPRS`.
//!
//! An image is a 4 KiB header, a one-record journal, an allocation table of little-endian `u64`
//! physical offsets (0 = unallocated), then block data. Unallocated blocks read as zeros. The
//! journal makes block allocation, which touches both the table and the data region, survive a
//! crash between the two writes: opening an image replays any record it finds.

use vstd::prelude::*;
use vstd::bytes::*;
use vstd::slice::slice_subrange;
use crate::storage::{DiskError, StorageBackend, spec_write_bytes, spec_resize};

verus! {

pub const HEADER_SIZE: u64 = 4096;
pub const JOURNAL_SIZE: u64 = 4096;
pub const SPARSE_VERSION: u32 = 1;
/// Guard against absurdly large in-memory allocation tables for untrusted images (128 MiB).
pub const MAX_TABLE_BYTES: u64 = 134217728;
/// Guard against blocks so large that allocating one means zero-filling gigabytes (64 MiB).
pub const MAX_BLOCK_SIZE_BYTES: u32 = 67108864;

/// `"AEROSPRS"`.
pub open spec fn sparse_magic() -> Seq<u8> {
    seq![0x41u8, 0x45, 0x52, 0x4F, 0x53, 0x50, 0x52, 0x53]
}

/// `"JNL1"`.
pub open spec fn journal_magic() -> Seq<u8> {
    seq![0x4Au8, 0x4E, 0x4C, 0x31]
}

pub open spec fn zeros(n: nat) -> Seq<u8> {
    Seq::new(n, |i: int| 0u8)
}

#[derive(Debug, Clone, Copy, PartialEq, Eq, Structural)]
pub struct SparseHeaderV1 {
    pub sector_size: u32,
    pub block_size: u32,
    pub total_sectors: u64,
    pub table_offset: u64,
    pub table_entries: u64,
    pub journal_offset: u64,
    pub data_offset: u64,
}

/// Number of `block_size` blocks needed to cover `total_bytes`.
pub open spec fn blocks_for(total_bytes: int, block_size: int) -> int {
    (total_bytes + block_size - 1) / block_size
}

/// The header as it is laid out on disk: magic, version, then the fields in declaration
/// order, little-endian, zero-padded to `HEADER_SIZE`.
pub open spec fn spec_encode_header(h: SparseHeaderV1) -> Seq<u8> {
    sparse_magic() + spec_u32_to_le_bytes(SPARSE_VERSION) + spec_u32_to_le_bytes(h.sector_size)
        + spec_u32_to_le_bytes(h.block_size) + spec_u64_to_le_bytes(h.total_sectors)
        + spec_u64_to_le_bytes(h.table_offset) + spec_u64_to_le_bytes(h.table_entries)
        + spec_u64_to_le_bytes(h.journal_offset) + spec_u64_to_le_bytes(h.data_offset) + zeros(
        4036,
    )
}

/// The header fields stored in `buf` (which holds at least `HEADER_SIZE` bytes).
pub open spec fn spec_header_fields(buf: Seq<u8>) -> SparseHeaderV1 {
    SparseHeaderV1 {
        sector_size: spec_u32_from_le_bytes(buf.subrange(12, 16)),
        block_size: spec_u32_from_le_bytes(buf.subrange(16, 20)),
        total_sectors: spec_u64_from_le_bytes(buf.subrange(20, 28)),
        table_offset: spec_u64_from_le_bytes(buf.subrange(28, 36)),
        table_entries: spec_u64_from_le_bytes(buf.subrange(36, 44)),
        journal_offset: spec_u64_from_le_bytes(buf.subrange(44, 52)),
        data_offset: spec_u64_from_le_bytes(buf.subrange(52, 60)),
    }
}

/// The first rule, in checking order, that a header's fields break; `None` for a valid header.
pub open spec fn spec_header_error(h: SparseHeaderV1) -> Option<DiskError> {
    let total_bytes = h.total_sectors * h.sector_size;
    let table_bytes = h.table_entries * 8;
    if h.sector_size != 512 && h.sector_size != 4096 {
        Some(DiskError::Unsupported("sector size (expected 512 or 4096)"))
    } else if h.block_size == 0 {
        Some(DiskError::CorruptImage("invalid block size"))
    } else if h.block_size % h.sector_size != 0 {
        Some(DiskError::CorruptImage("block size must be multiple of sector size"))
    } else if h.block_size > MAX_BLOCK_SIZE_BYTES {
        Some(DiskError::Unsupported("block size too large"))
    } else if h.total_sectors == 0 {
        Some(DiskError::CorruptImage("total sectors is zero"))
    } else if total_bytes > u64::MAX {
        Some(DiskError::CorruptImage("disk size overflow"))
    } else if h.table_entries != blocks_for(total_bytes, h.block_size as int) {
        Some(DiskError::CorruptImage("table entries mismatch"))
    } else if table_bytes > u64::MAX {
        Some(DiskError::CorruptImage("table size overflow"))
    } else if table_bytes > MAX_TABLE_BYTES {
        Some(DiskError::Unsupported("allocation table too large"))
    } else if h.table_offset < HEADER_SIZE {
        Some(DiskError::CorruptImage("table offset invalid"))
    } else if h.journal_offset < HEADER_SIZE {
        Some(DiskError::CorruptImage("journal offset invalid"))
    } else if h.data_offset < HEADER_SIZE {
        Some(DiskError::CorruptImage("data offset invalid"))
    } else if h.table_offset % 8 != 0 || h.journal_offset % 8 != 0 {
        Some(DiskError::CorruptImage("metadata offset misaligned"))
    } else if h.journal_offset + JOURNAL_SIZE > u64::MAX {
        Some(DiskError::CorruptImage("journal offset overflow"))
    } else if h.journal_offset + JOURNAL_SIZE > h.table_offset {
        Some(DiskError::CorruptImage("journal overlaps allocation table"))
    } else if h.table_offset + table_bytes > u64::MAX {
        Some(DiskError::CorruptImage("table offset overflow"))
    } else if h.table_offset + table_bytes > h.data_offset {
        Some(DiskError::CorruptImage("allocation table overlaps data region"))
    } else if h.data_offset % (h.block_size as u64) != 0 {
        Some(DiskError::CorruptImage("data offset not block aligned"))
    } else {
        None
    }
}

/// What decoding a header buffer yields.
pub open spec fn spec_decode_header(buf: Seq<u8>) -> Result<SparseHeaderV1, DiskError> {
    if buf.len() < HEADER_SIZE {
        Err(DiskError::CorruptImage("sparse header truncated"))
    } else if buf.subrange(0, 8) != sparse_magic() {
        Err(DiskError::CorruptImage("sparse magic mismatch"))
    } else if spec_u32_from_le_bytes(buf.subrange(8, 12)) != SPARSE_VERSION {
        Err(DiskError::Unsupported("sparse version"))
    } else {
        match spec_header_error(spec_header_fields(buf)) {
            Some(e) => Err(e),
            None => Ok(spec_header_fields(buf)),
        }
    }
}

/// Decoding an encoded header gives back the header exactly when it is valid, and otherwise
/// reports the first rule that it breaks.
pub proof fn lemma_header_roundtrip(h: SparseHeaderV1)
    ensures
        spec_decode_header(spec_encode_header(h)) == match spec_header_error(h) {
            Some(e) => Err(e),
            None => Ok(h),
        },
{
    lemma_auto_spec_u32_to_from_le_bytes();
    lemma_auto_spec_u64_to_from_le_bytes();
    let b = spec_encode_header(h);
    assert(b.len() == 4096);
    assert(b.subrange(0, 8) =~= sparse_magic());
    assert(b.subrange(8, 12) =~= spec_u32_to_le_bytes(SPARSE_VERSION));
    assert(b.subrange(12, 16) =~= spec_u32_to_le_bytes(h.sector_size));
    assert(b.subrange(16, 20) =~= spec_u32_to_le_bytes(h.block_size));
    assert(b.subrange(20, 28) =~= spec_u64_to_le_bytes(h.total_sectors));
    assert(b.subrange(28, 36) =~= spec_u64_to_le_bytes(h.table_offset));
    assert(b.subrange(36, 44) =~= spec_u64_to_le_bytes(h.table_entries));
    assert(b.subrange(44, 52) =~= spec_u64_to_le_bytes(h.journal_offset));
    assert(b.subrange(52, 60) =~= spec_u64_to_le_bytes(h.data_offset));
    assert(spec_header_fields(b) == h);
}

/// Copy `src` into `buf` at `at`.
fn put_bytes(buf: &mut [u8; 4096], at: usize, src: &[u8])
    requires
        at + src@.len() <= 4096,
    ensures
        final(buf)@ == old(buf)@.subrange(0, at as int) + src@ + old(buf)@.subrange(
            at + src@.len(),
            4096,
        ),
{
    let mut i: usize = 0;
    while i < src.len()
        invariant
            at + src@.len() <= 4096,
            i <= src@.len(),
            buf@.len() == 4096,
            forall|j: int| 0 <= j < at ==> buf@[j] == old(buf)@[j],
            forall|j: int| at + src@.len() <= j < 4096 ==> buf@[j] == old(buf)@[j],
            forall|j: int| at <= j < at + i ==> buf@[j] == src@[j - at],
        decreases src@.len() - i,
    {
        buf[at + i] = src[i];
        i += 1;
    }
    assert(buf@ =~= old(buf)@.subrange(0, at as int) + src@ + old(buf)@.subrange(
        at + src@.len(),
        4096,
    ));
}

/// `ceil(a / b)`.
fn div_ceil_u64(a: u64, b: u64) -> (r: u64)
    requires
        b > 0,
    ensures
        r == blocks_for(a as int, b as int),
{
    let q = a / b;
    let rem = a % b;
    proof {
        lemma_blocks_for(a as int, b as int);
    }
    if rem != 0 {
        q + 1
    } else {
        q
    }
}

proof fn lemma_blocks_for(a: int, b: int)
    requires
        a >= 0,
        b > 0,
    ensures
        blocks_for(a, b) == a / b + if a % b != 0 { 1int } else { 0int },
        blocks_for(a, b) * b >= a,
        a / b <= a,
        a % b != 0 ==> a / b < a,
{
    vstd::arithmetic::div_mod::lemma_fundamental_div_mod(a, b);
    let q = a / b;
    let r = a % b;
    assert(a == b * q + r);
    assert(0 <= r < b);
    assert(b * q == q * b) by (nonlinear_arith);
    assert(b * (q + 1) == (q + 1) * b && (q + 1) * b == q * b + b) by (nonlinear_arith);
    if r == 0 {
        vstd::arithmetic::div_mod::lemma_fundamental_div_mod_converse(a + b - 1, b, q, b - 1);
    } else {
        vstd::arithmetic::div_mod::lemma_fundamental_div_mod_converse(a + b - 1, b, q + 1, r - 1);
    }
    assert(blocks_for(a, b) * b >= a) by (nonlinear_arith)
        requires
            blocks_for(a, b) == q + if r != 0 { 1int } else { 0int },
            a == b * q + r,
            0 <= r < b,
    ;
    assert(q <= a) by (nonlinear_arith)
        requires
            a == b * q + r,
            0 <= r < b,
            b > 0,
            a >= 0,
    ;
    assert(r != 0 ==> q < a) by (nonlinear_arith)
        requires
            a == b * q + r,
            0 <= r < b,
            b > 0,
            a >= 0,
    ;
}

/// The first rule that `h` breaks, checked in the order the format checks them.
fn header_error(h: &SparseHeaderV1) -> (e: Option<DiskError>)
    ensures
        e == spec_header_error(*h),
{
    if h.sector_size != 512 && h.sector_size != 4096 {
        return Some(DiskError::Unsupported("sector size (expected 512 or 4096)"));
    }
    if h.block_size == 0 {
        return Some(DiskError::CorruptImage("invalid block size"));
    }
    if h.block_size as u64 % h.sector_size as u64 != 0 {
        return Some(DiskError::CorruptImage("block size must be multiple of sector size"));
    }
    if h.block_size > MAX_BLOCK_SIZE_BYTES {
        return Some(DiskError::Unsupported("block size too large"));
    }
    if h.total_sectors == 0 {
        return Some(DiskError::CorruptImage("total sectors is zero"));
    }
    let total_bytes = match h.total_sectors.checked_mul(h.sector_size as u64) {
        Some(t) => t,
        None => {
            return Some(DiskError::CorruptImage("disk size overflow"));
        },
    };
    let block_size_u64 = h.block_size as u64;
    let expected_entries = div_ceil_u64(total_bytes, block_size_u64);
    if h.table_entries != expected_entries {
        return Some(DiskError::CorruptImage("table entries mismatch"));
    }
    let table_bytes = match h.table_entries.checked_mul(8) {
        Some(t) => t,
        None => {
            return Some(DiskError::CorruptImage("table size overflow"));
        },
    };
    if table_bytes > MAX_TABLE_BYTES {
        return Some(DiskError::Unsupported("allocation table too large"));
    }
    if h.table_offset < HEADER_SIZE {
        return Some(DiskError::CorruptImage("table offset invalid"));
    }
    if h.journal_offset < HEADER_SIZE {
        return Some(DiskError::CorruptImage("journal offset invalid"));
    }
    if h.data_offset < HEADER_SIZE {
        return Some(DiskError::CorruptImage("data offset invalid"));
    }
    if h.table_offset % 8 != 0 || h.journal_offset % 8 != 0 {
        return Some(DiskError::CorruptImage("metadata offset misaligned"));
    }
    let journal_end = match h.journal_offset.checked_add(JOURNAL_SIZE) {
        Some(j) => j,
        None => {
            return Some(DiskError::CorruptImage("journal offset overflow"));
        },
    };
    if journal_end > h.table_offset {
        return Some(DiskError::CorruptImage("journal overlaps allocation table"));
    }
    let table_end = match h.table_offset.checked_add(table_bytes) {
        Some(t) => t,
        None => {
            return Some(DiskError::CorruptImage("table offset overflow"));
        },
    };
    if table_end > h.data_offset {
        return Some(DiskError::CorruptImage("allocation table overlaps data region"));
    }
    if h.data_offset % block_size_u64 != 0 {
        return Some(DiskError::CorruptImage("data offset not block aligned"));
    }
    None
}

impl SparseHeaderV1 {
    /// Parse and validate a header block.
    pub fn decode(buf: &[u8]) -> (r: Result<Self, DiskError>)
        ensures
            r == spec_decode_header(buf@),
    {
        if buf.len() < 4096 {
            return Err(DiskError::CorruptImage("sparse header truncated"));
        }
        let magic: [u8; 8] = [0x41, 0x45, 0x52, 0x4F, 0x53, 0x50, 0x52, 0x53];
        let mut i: usize = 0;
        while i < 8
            invariant
                i <= 8,
                buf@.len() >= 4096,
                magic@ == sparse_magic(),
                forall|j: int| 0 <= j < i ==> buf@[j] == sparse_magic()[j],
            decreases 8 - i,
        {
            if buf[i] != magic[i] {
                assert(buf@.subrange(0, 8)[i as int] != sparse_magic()[i as int]);
                return Err(DiskError::CorruptImage("sparse magic mismatch"));
            }
            i += 1;
        }
        assert(buf@.subrange(0, 8) =~= sparse_magic());
        let version = u32_from_le_bytes(slice_subrange(buf, 8, 12));
        if version != SPARSE_VERSION {
            return Err(DiskError::Unsupported("sparse version"));
        }
        let h = SparseHeaderV1 {
            sector_size: u32_from_le_bytes(slice_subrange(buf, 12, 16)),
            block_size: u32_from_le_bytes(slice_subrange(buf, 16, 20)),
            total_sectors: u64_from_le_bytes(slice_subrange(buf, 20, 28)),
            table_offset: u64_from_le_bytes(slice_subrange(buf, 28, 36)),
            table_entries: u64_from_le_bytes(slice_subrange(buf, 36, 44)),
            journal_offset: u64_from_le_bytes(slice_subrange(buf, 44, 52)),
            data_offset: u64_from_le_bytes(slice_subrange(buf, 52, 60)),
        };
        match header_error(&h) {
            Some(e) => Err(e),
            None => Ok(h),
        }
    }

    /// The on-disk header block.
    pub fn encode(&self) -> (buf: [u8; 4096])
        ensures
            buf@ == spec_encode_header(*self),
    {
        let mut buf = [0u8; 4096];
        let magic: [u8; 8] = [0x41, 0x45, 0x52, 0x4F, 0x53, 0x50, 0x52, 0x53];
        put_bytes(&mut buf, 0, &magic);
        let v = u32_to_le_bytes(SPARSE_VERSION);
        put_bytes(&mut buf, 8, v.as_slice());
        let v = u32_to_le_bytes(self.sector_size);
        put_bytes(&mut buf, 12, v.as_slice());
        let v = u32_to_le_bytes(self.block_size);
        put_bytes(&mut buf, 16, v.as_slice());
        let v = u64_to_le_bytes(self.total_sectors);
        put_bytes(&mut buf, 20, v.as_slice());
        let v = u64_to_le_bytes(self.table_offset);
        put_bytes(&mut buf, 28, v.as_slice());
        let v = u64_to_le_bytes(self.table_entries);
        put_bytes(&mut buf, 36, v.as_slice());
        let v = u64_to_le_bytes(self.journal_offset);
        put_bytes(&mut buf, 44, v.as_slice());
        let v = u64_to_le_bytes(self.data_offset);
        put_bytes(&mut buf, 52, v.as_slice());
        assert(buf@ =~= spec_encode_header(*self));
        buf
    }
}


/// The single journal record: while `state != 0`, logical block `logical_block` is being
/// allocated at `physical_offset`.
#[derive(Debug, Clone, Copy, PartialEq, Eq, Structural)]
pub struct JournalRecord {
    pub state: u8,
    pub logical_block: u64,
    pub physical_offset: u64,
}

/// The idle record.
pub open spec fn spec_empty_record() -> JournalRecord {
    JournalRecord { state: 0, logical_block: 0, physical_offset: 0 }
}

/// The journal block as laid out on disk: magic, state, three pad bytes, the logical block and
/// the physical offset (little-endian), zero-padded to `JOURNAL_SIZE`.
pub open spec fn spec_encode_record(r: JournalRecord) -> Seq<u8> {
    journal_magic() + seq![r.state, 0u8, 0u8, 0u8] + spec_u64_to_le_bytes(r.logical_block)
        + spec_u64_to_le_bytes(r.physical_offset) + zeros(4072)
}

/// What decoding a journal buffer yields. A block without the journal magic is an idle
/// journal, which keeps images from older writers readable.
pub open spec fn spec_decode_record(buf: Seq<u8>) -> Result<JournalRecord, DiskError> {
    if buf.len() < JOURNAL_SIZE {
        Err(DiskError::CorruptImage("sparse journal truncated"))
    } else if buf.subrange(0, 4) != journal_magic() {
        Ok(spec_empty_record())
    } else {
        Ok(
            JournalRecord {
                state: buf[4],
                logical_block: spec_u64_from_le_bytes(buf.subrange(8, 16)),
                physical_offset: spec_u64_from_le_bytes(buf.subrange(16, 24)),
            },
        )
    }
}

impl JournalRecord {
    pub fn empty() -> (r: Self)
        ensures
            r == spec_empty_record(),
    {
        JournalRecord { state: 0, logical_block: 0, physical_offset: 0 }
    }

    pub fn encode(&self) -> (buf: [u8; 4096])
        ensures
            buf@ == spec_encode_record(*self),
    {
        let mut buf = [0u8; 4096];
        let magic: [u8; 4] = [0x4A, 0x4E, 0x4C, 0x31];
        put_bytes(&mut buf, 0, &magic);
        buf[4] = self.state;
        let v = u64_to_le_bytes(self.logical_block);
        put_bytes(&mut buf, 8, v.as_slice());
        let v = u64_to_le_bytes(self.physical_offset);
        put_bytes(&mut buf, 16, v.as_slice());
        assert(buf@ =~= spec_encode_record(*self));
        buf
    }

    pub fn decode(buf: &[u8]) -> (r: Result<Self, DiskError>)
        ensures
            r == spec_decode_record(buf@),
    {
        if buf.len() < 4096 {
            return Err(DiskError::CorruptImage("sparse journal truncated"));
        }
        let magic: [u8; 4] = [0x4A, 0x4E, 0x4C, 0x31];
        let mut i: usize = 0;
        while i < 4
            invariant
                i <= 4,
                buf@.len() >= 4096,
                magic@ == journal_magic(),
                forall|j: int| 0 <= j < i ==> buf@[j] == journal_magic()[j],
            decreases 4 - i,
        {
            if buf[i] != magic[i] {
                assert(buf@.subrange(0, 4)[i as int] != journal_magic()[i as int]);
                return Ok(Self::empty());
            }
            i += 1;
        }
        assert(buf@.subrange(0, 4) =~= journal_magic());
        Ok(
            JournalRecord {
                state: buf[4],
                logical_block: u64_from_le_bytes(slice_subrange(buf, 8, 16)),
                physical_offset: u64_from_le_bytes(slice_subrange(buf, 16, 24)),
            },
        )
    }
}

/// Decoding an encoded journal record gives back the record.
pub proof fn lemma_record_roundtrip(r: JournalRecord)
    ensures
        spec_decode_record(spec_encode_record(r)) == Ok::<JournalRecord, DiskError>(r),
{
    lemma_auto_spec_u64_to_from_le_bytes();
    let b = spec_encode_record(r);
    assert(b.subrange(0, 4) =~= journal_magic());
    assert(b.subrange(8, 16) =~= spec_u64_to_le_bytes(r.logical_block));
    assert(b.subrange(16, 24) =~= spec_u64_to_le_bytes(r.physical_offset));
}


/// The layout facts that every header this module builds or accepts satisfies.
pub open spec fn spec_geometry_ok(h: SparseHeaderV1) -> bool {
    let bs = h.block_size as int;
    let total_bytes = h.total_sectors * h.sector_size;
    &&& h.sector_size == 512 || h.sector_size == 4096
    &&& bs > 0 && bs % (h.sector_size as int) == 0 && h.block_size <= MAX_BLOCK_SIZE_BYTES
    &&& total_bytes <= u64::MAX
    &&& h.table_entries == blocks_for(total_bytes, bs)
    &&& h.table_entries * 8 <= MAX_TABLE_BYTES
    &&& HEADER_SIZE <= h.journal_offset
    &&& h.journal_offset + JOURNAL_SIZE <= h.table_offset
    &&& h.table_offset + h.table_entries * 8 <= h.data_offset
    &&& h.data_offset % (h.block_size as u64) == 0
}

/// Every header that passes validation has a sound geometry.
pub proof fn lemma_valid_header_geometry(h: SparseHeaderV1)
    requires
        spec_header_error(h) is None,
    ensures
        spec_geometry_ok(h),
{
}

/// `value` rounded up to a multiple of `align` (unchanged for `align == 0`).
pub open spec fn spec_align_up(value: int, align: int) -> int {
    if align == 0 || value % align == 0 {
        value
    } else {
        value + align - value % align
    }
}

/// Round `value` up to a multiple of `align`.
pub fn align_up(value: u64, align: u64) -> (r: Result<u64, DiskError>)
    ensures
        spec_align_up(value as int, align as int) <= u64::MAX ==> r == Ok::<u64, DiskError>(
            spec_align_up(value as int, align as int) as u64,
        ),
        spec_align_up(value as int, align as int) > u64::MAX ==> r == Err::<u64, DiskError>(
            DiskError::Unsupported("offset overflow"),
        ),
{
    if align == 0 {
        return Ok(value);
    }
    let rem = value % align;
    if rem == 0 {
        Ok(value)
    } else {
        match value.checked_add(align - rem) {
            Some(v) => Ok(v),
            None => Err(DiskError::Unsupported("offset overflow")),
        }
    }
}

proof fn lemma_align_up(value: int, align: int)
    requires
        value >= 0,
        align > 0,
    ensures
        value <= spec_align_up(value, align) < value + align,
        spec_align_up(value, align) % align == 0,
{
    vstd::arithmetic::div_mod::lemma_fundamental_div_mod(value, align);
    let q = value / align;
    let r = value % align;
    if r != 0 {
        assert(align * q + align == align * (q + 1)) by (nonlinear_arith);
        vstd::arithmetic::div_mod::lemma_mod_multiples_basic(q + 1, align);
        assert((q + 1) * align == align * (q + 1)) by (nonlinear_arith);
    }
}

/// The effect of zero-filling `len` bytes at `offset` (nothing is written for `len == 0`).
pub open spec fn spec_write_zeroes(data: Seq<u8>, offset: int, len: int) -> Seq<u8> {
    if len == 0 {
        data
    } else {
        spec_write_bytes(data, offset, zeros(len as nat))
    }
}

proof fn lemma_write_zeroes_step(data: Seq<u8>, offset: int, a: int, b: int)
    requires
        0 <= offset,
        0 <= a,
        0 < b,
    ensures
        spec_write_bytes(spec_write_zeroes(data, offset, a), offset + a, zeros(b as nat))
            == spec_write_zeroes(data, offset, a + b),
{
    let lhs = spec_write_bytes(spec_write_zeroes(data, offset, a), offset + a, zeros(b as nat));
    let rhs = spec_write_zeroes(data, offset, a + b);
    assert(lhs =~= rhs);
}

/// Zero-fill `len` bytes of `storage` at `offset`, 64 KiB at a time.
pub fn write_zeroes<S: StorageBackend>(storage: &mut S, offset: u64, len: u64) -> (r: Result<
    (),
    DiskError,
>)
    ensures
        r is Ok ==> final(storage).contents() == spec_write_zeroes(
            old(storage).contents(),
            offset as int,
            len as int,
        ),
        r is Ok ==> offset + len <= u64::MAX,
        len == 0 ==> r is Ok && *final(storage) == *old(storage),
        r matches Err(e) ==> S::reports(e) || (e == DiskError::Unsupported("offset overflow")
            && offset + len > u64::MAX),
{
    let buf = [0u8; 65536];
    assert(buf@ =~= zeros(65536));
    let mut off = offset;
    let mut left = len;
    while left > 0
        invariant
            off == offset + (len - left),
            left <= len,
            left == len ==> *storage == *old(storage),
            buf@ == zeros(65536),
            storage.contents() == spec_write_zeroes(
                old(storage).contents(),
                offset as int,
                (len - left) as int,
            ),
        decreases left,
    {
        let to_write = if left < 65536 { left } else { 65536 };
        let chunk = slice_subrange(&buf, 0, to_write as usize);
        assert(chunk@ =~= zeros(to_write as nat));
        let w = storage.write_at(off, chunk);
        if w.is_err() {
            return w;
        }
        proof {
            lemma_write_zeroes_step(
                old(storage).contents(),
                offset as int,
                (len - left) as int,
                to_write as int,
            );
        }
        off = match off.checked_add(to_write) {
            Some(o) => o,
            None => {
                return Err(DiskError::Unsupported("offset overflow"));
            },
        };
        left = left - to_write;
    }
    Ok(())
}

/// Entries `(logical block, physical offset)` of the allocated blocks among the first `n`
/// table entries, in table order.
pub open spec fn spec_allocated(table: Seq<u64>, n: int) -> Seq<(u64, u64)>
    decreases n,
{
    if n <= 0 {
        Seq::empty()
    } else if table[n - 1] != 0 {
        spec_allocated(table, n - 1).push(((n - 1) as u64, table[n - 1]))
    } else {
        spec_allocated(table, n - 1)
    }
}

/// The allocated-block list is in increasing logical-block order, each entry names an allocated
/// block with its physical offset, and every allocated block among the first `n` is listed.
pub proof fn lemma_allocated_blocks_listed(table: Seq<u64>, n: int)
    requires
        0 <= n <= table.len(),
        n <= u64::MAX + 1,
    ensures
        forall|i: int, j: int|
            0 <= i < j < spec_allocated(table, n).len() ==> (#[trigger] spec_allocated(table, n)[i]).0
                < (#[trigger] spec_allocated(table, n)[j]).0,
        forall|i: int|
            0 <= i < spec_allocated(table, n).len() ==> {
                let e = #[trigger] spec_allocated(table, n)[i];
                &&& e.0 < n
                &&& e.1 != 0
                &&& table[e.0 as int] == e.1
            },
        forall|b: int|
            0 <= b < n && #[trigger] table[b] != 0 ==> exists|i: int|
                0 <= i < spec_allocated(table, n).len() && spec_allocated(table, n)[i] == (
                    b as u64,
                    table[b],
                ),
    decreases n,
{
    if n > 0 {
        lemma_allocated_blocks_listed(table, n - 1);
        let prev = spec_allocated(table, n - 1);
        if table[n - 1] != 0 {
            let cur = prev.push(((n - 1) as u64, table[n - 1]));
            assert(spec_allocated(table, n) == cur);
            assert forall|b: int| 0 <= b < n && #[trigger] table[b] != 0 implies exists|i: int|
                0 <= i < cur.len() && cur[i] == (b as u64, table[b]) by {
                if b == n - 1 {
                    assert(cur[prev.len() as int] == (b as u64, table[b]));
                } else {
                    let i = choose|i: int| 0 <= i < prev.len() && prev[i] == (b as u64, table[b]);
                    assert(cur[i] == prev[i]);
                }
            }
        } else {
            assert(spec_allocated(table, n) == prev);
            assert forall|b: int| 0 <= b < n && #[trigger] table[b] != 0 implies exists|i: int|
                0 <= i < prev.len() && prev[i] == (b as u64, table[b]) by {
                assert(b < n - 1);
            }
        }
    }
}

/// The byte the guest sees at `pos`: zero in an unallocated block, otherwise the byte at the
/// same offset within the block's physical copy.
pub open spec fn spec_logical_byte(h: SparseHeaderV1, table: Seq<u64>, data: Seq<u8>, pos: int) -> u8 {
    let bs = h.block_size as int;
    let phys = table[pos / bs];
    if phys == 0 {
        0u8
    } else {
        data[phys + pos % bs]
    }
}

/// The disk contents the guest sees, given the header, the table and the backend's bytes.
/// Every guest byte in `[offset, offset + len)` lies in an unallocated block.
pub open spec fn spec_range_unallocated(h: SparseHeaderV1, table: Seq<u64>, offset: int, len: int) -> bool {
    forall|p: int| offset <= p < offset + len ==> #[trigger] table[p / (h.block_size as int)] == 0
}

/// Some nonzero byte of `buf`, written at guest offset `offset`, falls in logical block `b`.
pub open spec fn spec_dirties_block(h: SparseHeaderV1, offset: int, buf: Seq<u8>, b: int) -> bool {
    exists|j: int| 0 <= j < buf.len() && #[trigger] buf[j] != 0 && (offset + j) / (h.block_size as int) == b
}

/// Every byte of `buf` is zero.
pub open spec fn spec_all_zero(buf: Seq<u8>) -> bool {
    forall|j: int| 0 <= j < buf.len() ==> #[trigger] buf[j] == 0
}

pub open spec fn spec_logical(h: SparseHeaderV1, table: Seq<u64>, data: Seq<u8>) -> Seq<u8> {
    Seq::new(
        (h.total_sectors * h.sector_size) as nat,
        |pos: int| spec_logical_byte(h, table, data, pos),
    )
}

/// The allocated blocks are block-aligned, lie inside the backend past the metadata, and no two
/// logical blocks share a physical block.
pub open spec fn spec_blocks_disjoint(h: SparseHeaderV1, table: Seq<u64>, data: Seq<u8>) -> bool {
    let bs = h.block_size as int;
    &&& forall|i: int|
        #![trigger table[i]]
        0 <= i < table.len() && table[i] != 0 ==> {
            &&& (table[i] as int) % bs == 0
            &&& h.data_offset <= table[i]
            &&& table[i] + bs <= data.len()
        }
    &&& forall|i: int, j: int|
        0 <= i < table.len() && 0 <= j < table.len() && i != j && table[i] != 0
            ==> #[trigger] table[i] != #[trigger] table[j]
}

/// `d2` agrees with `d1` on every allocated block and is no shorter.
pub open spec fn spec_blocks_kept(h: SparseHeaderV1, table: Seq<u64>, d1: Seq<u8>, d2: Seq<u8>) -> bool {
    &&& d2.len() >= d1.len()
    &&& forall|i: int, k: int|
        0 <= i < table.len() && table[i] != 0 && 0 <= k < h.block_size ==> #[trigger] d2[table[i]
            + k] == d1[table[i] + k]
}

/// Changing bytes outside the allocated blocks changes neither the guest's view nor the
/// layout facts.
proof fn lemma_blocks_kept(h: SparseHeaderV1, table: Seq<u64>, d1: Seq<u8>, d2: Seq<u8>)
    requires
        spec_geometry_ok(h),
        table.len() == h.table_entries,
        spec_blocks_disjoint(h, table, d1),
        spec_blocks_kept(h, table, d1, d2),
    ensures
        spec_logical(h, table, d2) == spec_logical(h, table, d1),
        spec_blocks_disjoint(h, table, d2),
{
    let bs = h.block_size as int;
    assert forall|pos: int| 0 <= pos < h.total_sectors * h.sector_size implies
        spec_logical_byte(h, table, d2, pos) == spec_logical_byte(h, table, d1, pos) by {
        lemma_block_index_in_table(h, pos);
        let b = pos / bs;
        vstd::arithmetic::div_mod::lemma_mod_bound(pos, bs);
        if table[b] != 0 {
            assert(d2[table[b] + pos % bs] == d1[table[b] + pos % bs]);
        }
    }
    assert(spec_logical(h, table, d2) =~= spec_logical(h, table, d1));
}

/// A write that ends at or before `data_offset` leaves every allocated block alone.
proof fn lemma_metadata_write_keeps_blocks(
    h: SparseHeaderV1,
    table: Seq<u64>,
    d: Seq<u8>,
    off: int,
    bytes: Seq<u8>,
)
    requires
        spec_geometry_ok(h),
        table.len() == h.table_entries,
        spec_blocks_disjoint(h, table, d),
        0 <= off,
        off + bytes.len() <= h.data_offset,
    ensures
        spec_blocks_kept(h, table, d, spec_write_bytes(d, off, bytes)),
{
}

/// Two different block-aligned blocks share no byte.
proof fn lemma_aligned_disjoint(p: int, q: int, bs: int, k1: int, k2: int)
    requires
        bs > 0,
        p >= 0,
        q >= 0,
        p % bs == 0,
        q % bs == 0,
        p != q,
        0 <= k1 < bs,
        0 <= k2 < bs,
    ensures
        p + k1 != q + k2,
{
    vstd::arithmetic::div_mod::lemma_fundamental_div_mod(p, bs);
    vstd::arithmetic::div_mod::lemma_fundamental_div_mod(q, bs);
    let a = p / bs;
    let b = q / bs;
    if p + k1 == q + k2 {
        assert(bs * a + k1 == bs * b + k2);
        if a < b {
            assert(bs * b >= bs * (a + 1)) by (nonlinear_arith)
                requires
                    a < b,
                    bs > 0,
            ;
            assert(bs * (a + 1) == bs * a + bs) by (nonlinear_arith);
        } else if a > b {
            assert(bs * a >= bs * (b + 1)) by (nonlinear_arith)
                requires
                    a > b,
                    bs > 0,
            ;
            assert(bs * (b + 1) == bs * b + bs) by (nonlinear_arith);
        }
    }
}

/// The logical position of byte `k` of logical block `b`.
proof fn lemma_block_position(bs: int, b: int, k: int)
    requires
        bs > 0,
        b >= 0,
        0 <= k < bs,
    ensures
        (b * bs + k) / bs == b,
        (b * bs + k) % bs == k,
{
    vstd::arithmetic::div_mod::lemma_fundamental_div_mod_converse(b * bs + k, bs, b, k);
}

/// Writing `bytes` at offset `off_in_block` inside allocated block `idx` writes the same bytes
/// into the guest's view at the matching logical position.
proof fn lemma_write_inside_block(
    h: SparseHeaderV1,
    table: Seq<u64>,
    d: Seq<u8>,
    idx: int,
    off_in_block: int,
    bytes: Seq<u8>,
)
    requires
        spec_geometry_ok(h),
        table.len() == h.table_entries,
        spec_blocks_disjoint(h, table, d),
        0 <= idx < table.len(),
        table[idx] != 0,
        0 <= off_in_block,
        off_in_block + bytes.len() <= h.block_size,
        idx * h.block_size + off_in_block + bytes.len() <= h.total_sectors * h.sector_size,
    ensures
        spec_blocks_disjoint(h, table, spec_write_bytes(d, table[idx] + off_in_block, bytes)),
        spec_logical(h, table, spec_write_bytes(d, table[idx] + off_in_block, bytes))
            == spec_write_bytes(
            spec_logical(h, table, d),
            idx * h.block_size + off_in_block,
            bytes,
        ),
{
    let bs = h.block_size as int;
    let p = table[idx] as int;
    let d2 = spec_write_bytes(d, p + off_in_block, bytes);
    let at = idx * bs + off_in_block;
    assert(d2.len() == d.len());
    let l1 = spec_logical(h, table, d);
    let l2 = spec_logical(h, table, d2);
    let target = spec_write_bytes(l1, at, bytes);
    assert forall|pos: int| 0 <= pos < l2.len() implies l2[pos] == target[pos] by {
        lemma_block_index_in_table(h, pos);
        vstd::arithmetic::div_mod::lemma_fundamental_div_mod(pos, bs);
        vstd::arithmetic::div_mod::lemma_mod_bound(pos, bs);
        let b = pos / bs;
        let k = pos % bs;
        assert(pos == b * bs + k) by (nonlinear_arith)
            requires
                pos == bs * (pos / bs) + pos % bs,
                b == pos / bs,
                k == pos % bs,
        ;
        if b == idx {
            if at <= pos < at + bytes.len() {
                assert(k == off_in_block + (pos - at));
            } else {
                assert(!(off_in_block <= k < off_in_block + bytes.len()));
            }
        } else if table[b] != 0 {
            if p + off_in_block <= table[b] + k < p + off_in_block + bytes.len() {
                lemma_aligned_disjoint(table[b] as int, p, bs, k, table[b] + k - p);
            }
            assert(!(at <= pos < at + bytes.len())) by {
                if at <= pos < at + bytes.len() {
                    lemma_block_position(bs, idx, off_in_block + (pos - at));
                }
            }
        } else {
            assert(!(at <= pos < at + bytes.len())) by {
                if at <= pos < at + bytes.len() {
                    lemma_block_position(bs, idx, off_in_block + (pos - at));
                }
            }
        }
    }
    assert(l2 =~= target);
}

/// Installing a fresh zero-filled block at or past the end of the backend for an unallocated
/// logical block keeps the layout sound and the guest's view unchanged.
proof fn lemma_install_zero_block(h: SparseHeaderV1, table: Seq<u64>, d: Seq<u8>, idx: int, off: int)
    requires
        spec_geometry_ok(h),
        table.len() == h.table_entries,
        spec_blocks_disjoint(h, table, d),
        0 <= idx < table.len(),
        table[idx] == 0,
        off >= d.len(),
        off >= h.data_offset,
        off % (h.block_size as int) == 0,
        off <= u64::MAX,
        off > 0,
    ensures
        spec_blocks_disjoint(
            h,
            table.update(idx, off as u64),
            spec_write_bytes(d, off, zeros(h.block_size as nat)),
        ),
        spec_logical(h, table.update(idx, off as u64), spec_write_bytes(d, off, zeros(h.block_size as nat)))
            == spec_logical(h, table, d),
{
    let bs = h.block_size as int;
    let t2 = table.update(idx, off as u64);
    let d2 = spec_write_bytes(d, off, zeros(h.block_size as nat));
    assert forall|i: int, j: int|
        0 <= i < t2.len() && 0 <= j < t2.len() && i != j && t2[i] != 0
            implies #[trigger] t2[i] != #[trigger] t2[j] by {
        if i == idx {
            if t2[j] != 0 {
                assert(table[j] + bs <= d.len());
            }
        } else if j == idx {
            assert(table[i] + bs <= d.len());
        }
    }
    let l1 = spec_logical(h, table, d);
    let l2 = spec_logical(h, t2, d2);
    assert forall|pos: int| 0 <= pos < l2.len() implies l2[pos] == l1[pos] by {
        lemma_block_index_in_table(h, pos);
        vstd::arithmetic::div_mod::lemma_mod_bound(pos, bs);
        let b = pos / bs;
        if b != idx && table[b] != 0 {
            assert(table[b] + bs <= d.len());
        }
    }
    assert(l2 =~= l1);
}

/// Writing an all-zero chunk into an unallocated block leaves the guest's view as it was.
proof fn lemma_zero_chunk_into_hole(
    h: SparseHeaderV1,
    table: Seq<u64>,
    d: Seq<u8>,
    idx: int,
    off_in_block: int,
    bytes: Seq<u8>,
)
    requires
        spec_geometry_ok(h),
        table.len() == h.table_entries,
        0 <= idx < table.len(),
        table[idx] == 0,
        0 <= off_in_block,
        off_in_block + bytes.len() <= h.block_size,
        idx * h.block_size + off_in_block + bytes.len() <= h.total_sectors * h.sector_size,
        forall|i: int| 0 <= i < bytes.len() ==> bytes[i] == 0u8,
    ensures
        spec_write_bytes(spec_logical(h, table, d), idx * h.block_size + off_in_block, bytes)
            == spec_logical(h, table, d),
{
    let bs = h.block_size as int;
    let at = idx * bs + off_in_block;
    let l = spec_logical(h, table, d);
    let w = spec_write_bytes(l, at, bytes);
    assert forall|pos: int| 0 <= pos < l.len() implies w[pos] == l[pos] by {
        if at <= pos < at + bytes.len() {
            lemma_block_position(bs, idx, off_in_block + (pos - at));
        }
    }
    assert(w =~= l);
}

/// Writing a buffer piece by piece is writing it at once.
proof fn lemma_write_prefix_step(l: Seq<u8>, offset: int, buf: Seq<u8>, done: int, len: int)
    requires
        0 <= offset,
        0 <= done,
        0 <= len,
        done + len <= buf.len(),
        offset + buf.len() <= l.len(),
    ensures
        spec_write_bytes(
            spec_write_bytes(l, offset, buf.subrange(0, done)),
            offset + done,
            buf.subrange(done, done + len),
        ) == spec_write_bytes(l, offset, buf.subrange(0, done + len)),
{
    assert(spec_write_bytes(
        spec_write_bytes(l, offset, buf.subrange(0, done)),
        offset + done,
        buf.subrange(done, done + len),
    ) =~= spec_write_bytes(l, offset, buf.subrange(0, done + len)));
}

/// The metadata on the backend matches the disk's state: the header block, an idle journal
/// and the allocation table, entry for entry, all with the data region at or before the end.
pub open spec fn spec_persisted(h: SparseHeaderV1, table: Seq<u64>, d: Seq<u8>) -> bool {
    &&& d.len() >= h.data_offset
    &&& d.subrange(0, HEADER_SIZE as int) == spec_encode_header(h)
    &&& d.subrange(h.journal_offset as int, h.journal_offset + JOURNAL_SIZE) == spec_encode_record(
        spec_empty_record(),
    )
    &&& forall|i: int|
        0 <= i < h.table_entries ==> #[trigger] d.subrange(
            h.table_offset + 8 * i,
            h.table_offset + 8 * i + 8,
        ) == spec_u64_to_le_bytes(table[i])
}

/// Why `create` refuses a geometry, if it does.
pub open spec fn spec_create_error(sector_size: u32, total_sectors: u64, block_size: u32) -> Option<
    DiskError,
> {
    let total_bytes = total_sectors * sector_size;
    if sector_size != 512 && sector_size != 4096 {
        Some(DiskError::Unsupported("sector size (expected 512 or 4096)"))
    } else if block_size == 0 || block_size % sector_size != 0 {
        Some(DiskError::Unsupported("block size must be a multiple of sector size"))
    } else if block_size > MAX_BLOCK_SIZE_BYTES {
        Some(DiskError::Unsupported("block size too large"))
    } else if total_bytes > u64::MAX {
        Some(DiskError::Unsupported("disk size overflow"))
    } else if blocks_for(total_bytes, block_size as int) * 8 > u64::MAX {
        Some(DiskError::Unsupported("table size overflow"))
    } else if blocks_for(total_bytes, block_size as int) * 8 > MAX_TABLE_BYTES {
        Some(DiskError::Unsupported("allocation table too large"))
    } else {
        None
    }
}

/// The header `create` writes: journal right after the header, table right after the
/// journal, data at the first block boundary after the table.
pub open spec fn spec_create_header(sector_size: u32, total_sectors: u64, block_size: u32) -> SparseHeaderV1 {
    let entries = blocks_for(total_sectors * sector_size, block_size as int);
    SparseHeaderV1 {
        sector_size,
        block_size,
        total_sectors,
        table_offset: 8192,
        table_entries: entries as u64,
        journal_offset: 4096,
        data_offset: spec_align_up(8192 + entries * 8, block_size as int) as u64,
    }
}

/// The backend bytes right after `create`.
pub open spec fn spec_created_bytes(old: Seq<u8>, h: SparseHeaderV1) -> Seq<u8> {
    spec_resize(
        spec_write_zeroes(
            spec_write_bytes(
                spec_write_bytes(old, 0, spec_encode_header(h)),
                4096,
                spec_encode_record(spec_empty_record()),
            ),
            8192,
            h.table_entries * 8,
        ),
        h.data_offset as int,
    )
}

proof fn lemma_le_bytes_of_zero()
    ensures
        spec_u64_to_le_bytes(0) == zeros(8),
{
    spec_u64_to_le_bytes_to_open(0);
    assert(0u64 & 0xff == 0 && (0u64 >> 8) & 0xff == 0 && (0u64 >> 16) & 0xff == 0 && (0u64 >> 24)
        & 0xff == 0 && (0u64 >> 32) & 0xff == 0 && (0u64 >> 40) & 0xff == 0 && (0u64 >> 48)
        & 0xff == 0 && (0u64 >> 56) & 0xff == 0) by (bit_vector);
    assert(spec_u64_to_le_bytes_open(0) =~= zeros(8));
}

/// Writes at or past the data region leave the metadata on the backend intact.
proof fn lemma_persisted_high_write(
    h: SparseHeaderV1,
    table: Seq<u64>,
    d: Seq<u8>,
    off: int,
    bytes: Seq<u8>,
)
    requires
        spec_geometry_ok(h),
        spec_persisted(h, table, d),
        off >= h.data_offset,
    ensures
        spec_persisted(h, table, spec_write_bytes(d, off, bytes)),
{
    let d2 = spec_write_bytes(d, off, bytes);
    assert(d2.subrange(0, HEADER_SIZE as int) =~= d.subrange(0, HEADER_SIZE as int));
    assert(d2.subrange(h.journal_offset as int, h.journal_offset + JOURNAL_SIZE) =~= d.subrange(
        h.journal_offset as int,
        h.journal_offset + JOURNAL_SIZE,
    ));
    assert forall|i: int| 0 <= i < h.table_entries implies #[trigger] d2.subrange(
        h.table_offset + 8 * i,
        h.table_offset + 8 * i + 8,
    ) == spec_u64_to_le_bytes(table[i]) by {
        assert(d2.subrange(h.table_offset + 8 * i, h.table_offset + 8 * i + 8) =~= d.subrange(
            h.table_offset + 8 * i,
            h.table_offset + 8 * i + 8,
        ));
    }
}

/// Journaling an allocation, writing the table entry and clearing the journal again leaves the
/// metadata describing the updated table.
proof fn lemma_persisted_allocation(
    h: SparseHeaderV1,
    table: Seq<u64>,
    d: Seq<u8>,
    idx: int,
    value: u64,
    rec: Seq<u8>,
)
    requires
        spec_geometry_ok(h),
        spec_persisted(h, table, d),
        0 <= idx < h.table_entries,
        table.len() == h.table_entries,
        rec.len() == JOURNAL_SIZE,
    ensures
        spec_persisted(
            h,
            table.update(idx, value),
            spec_write_bytes(
                spec_write_bytes(
                    spec_write_bytes(d, h.journal_offset as int, rec),
                    h.table_offset + idx * 8,
                    spec_u64_to_le_bytes(value),
                ),
                h.journal_offset as int,
                spec_encode_record(spec_empty_record()),
            ),
        ),
{
    lemma_auto_spec_u64_to_from_le_bytes();
    let d3 = spec_write_bytes(d, h.journal_offset as int, rec);
    let d4 = spec_write_bytes(d3, h.table_offset + idx * 8, spec_u64_to_le_bytes(value));
    let d5 = spec_write_bytes(d4, h.journal_offset as int, spec_encode_record(spec_empty_record()));
    let t2 = table.update(idx, value);
    assert(spec_encode_record(spec_empty_record()).len() == JOURNAL_SIZE);
    assert(d5.len() == d.len());
    assert(d5.subrange(0, HEADER_SIZE as int) =~= d.subrange(0, HEADER_SIZE as int));
    assert(d5.subrange(h.journal_offset as int, h.journal_offset + JOURNAL_SIZE)
        =~= spec_encode_record(spec_empty_record()));
    assert forall|i: int| 0 <= i < h.table_entries implies #[trigger] d5.subrange(
        h.table_offset + 8 * i,
        h.table_offset + 8 * i + 8,
    ) == spec_u64_to_le_bytes(t2[i]) by {
        if i == idx {
            assert(d5.subrange(h.table_offset + 8 * i, h.table_offset + 8 * i + 8)
                =~= spec_u64_to_le_bytes(value));
        } else {
            assert(d5.subrange(h.table_offset + 8 * i, h.table_offset + 8 * i + 8) =~= d.subrange(
                h.table_offset + 8 * i,
                h.table_offset + 8 * i + 8,
            ));
        }
    }
}

/// The allocation table as stored on the backend.
pub open spec fn spec_stored_table(h: SparseHeaderV1, d: Seq<u8>) -> Seq<u64> {
    Seq::new(
        h.table_entries as nat,
        |i: int| spec_u64_from_le_bytes(d.subrange(h.table_offset + 8 * i, h.table_offset + 8 * i + 8)),
    )
}

/// What replaying the journal does to the table and the backend: nothing for an idle journal,
/// otherwise (if the record is consistent with the table) it installs the recorded mapping,
/// persists that table entry and clears the journal.
pub open spec fn spec_replay(h: SparseHeaderV1, table: Seq<u64>, d: Seq<u8>) -> Result<
    (Seq<u64>, Seq<u8>),
    DiskError,
> {
    let rec = spec_decode_record(
        d.subrange(h.journal_offset as int, h.journal_offset + JOURNAL_SIZE),
    ).unwrap();
    let lb = rec.logical_block as int;
    let phys = rec.physical_offset;
    if rec.state == 0 {
        Ok((table, d))
    } else if rec.logical_block >= h.table_entries {
        Err(DiskError::CorruptImage("journal logical block out of range"))
    } else if phys != 0 && phys % (h.block_size as u64) != 0 {
        Err(DiskError::CorruptImage("journal physical offset not aligned"))
    } else if table[lb] != 0 && table[lb] != phys {
        Err(DiskError::CorruptImage("journal conflicts with allocation table"))
    } else {
        Ok(
            (
                table.update(lb, phys),
                spec_write_bytes(
                    spec_write_bytes(d, h.table_offset + 8 * lb, spec_u64_to_le_bytes(phys)),
                    h.journal_offset as int,
                    spec_encode_record(spec_empty_record()),
                ),
            ),
        )
    }
}

/// What opening a backend holding `d` yields: the header, the table after journal replay, and
/// the backend's bytes after replay.
pub open spec fn spec_opened(d: Seq<u8>) -> Result<(SparseHeaderV1, Seq<u64>, Seq<u8>), DiskError> {
    if d.len() < HEADER_SIZE {
        Err(DiskError::CorruptImage("sparse header truncated"))
    } else {
        match spec_decode_header(d.subrange(0, HEADER_SIZE as int)) {
            Err(e) => Err(e),
            Ok(h) => if d.len() < h.data_offset {
                Err(DiskError::CorruptImage("sparse image truncated"))
            } else {
                match spec_replay(h, spec_stored_table(h, d), d) {
                    Err(e) => Err(e),
                    Ok((t, d2)) => Ok((h, t, d2)),
                }
            },
        }
    }
}

/// Reopening a backend whose metadata matches a disk's state gives back that state exactly:
/// the same header, the same table and the same bytes, so the same guest-visible contents.
pub proof fn lemma_reopen(h: SparseHeaderV1, table: Seq<u64>, d: Seq<u8>)
    requires
        spec_header_error(h) is None,
        table.len() == h.table_entries,
        spec_persisted(h, table, d),
    ensures
        spec_opened(d) == Ok::<(SparseHeaderV1, Seq<u64>, Seq<u8>), DiskError>((h, table, d)),
{
    lemma_header_roundtrip(h);
    lemma_record_roundtrip(spec_empty_record());
    lemma_auto_spec_u64_to_from_le_bytes();
    assert(spec_stored_table(h, d) =~= table);
}

/// An allocation survives a crash between its two metadata writes: a backend whose journal
/// still records allocating logical block `lb` at `phys`, and whose stored table does not map
/// `lb` elsewhere, opens with `lb` mapped to `phys`, that table entry persisted and the journal
/// cleared.
pub proof fn lemma_journal_completes_allocation(h: SparseHeaderV1, d: Seq<u8>, lb: u64, phys: u64)
    requires
        spec_header_error(h) is None,
        d.len() >= h.data_offset,
        d.subrange(0, HEADER_SIZE as int) == spec_encode_header(h),
        d.subrange(h.journal_offset as int, h.journal_offset + JOURNAL_SIZE) == spec_encode_record(
            JournalRecord { state: 1, logical_block: lb, physical_offset: phys },
        ),
        lb < h.table_entries,
        phys % (h.block_size as u64) == 0,
        spec_stored_table(h, d)[lb as int] == 0 || spec_stored_table(h, d)[lb as int] == phys,
    ensures
        spec_opened(d) == Ok::<(SparseHeaderV1, Seq<u64>, Seq<u8>), DiskError>(
            (
                h,
                spec_stored_table(h, d).update(lb as int, phys),
                spec_write_bytes(
                    spec_write_bytes(d, h.table_offset + 8 * lb, spec_u64_to_le_bytes(phys)),
                    h.journal_offset as int,
                    spec_encode_record(spec_empty_record()),
                ),
            ),
        ),
{
    lemma_header_roundtrip(h);
    lemma_record_roundtrip(JournalRecord { state: 1, logical_block: lb, physical_offset: phys });
    lemma_valid_header_geometry(h);
}

/// A geometry that `create` accepts, with at least one sector, yields a header that passes
/// validation, so the image it formats can be opened again.
pub proof fn lemma_created_header_valid(sector_size: u32, total_sectors: u64, block_size: u32)
    requires
        spec_create_error(sector_size, total_sectors, block_size) is None,
        total_sectors > 0,
    ensures
        spec_header_error(spec_create_header(sector_size, total_sectors, block_size)) is None,
{
    let h = spec_create_header(sector_size, total_sectors, block_size);
    let entries = blocks_for(total_sectors * sector_size, block_size as int);
    lemma_blocks_for(total_sectors * sector_size, block_size as int);
    lemma_align_up(8192 + entries * 8, block_size as int);
}

/// A read of the range just written returns the written bytes, and the rest of the contents
/// is as it was.
pub proof fn lemma_read_back_what_was_written(contents: Seq<u8>, offset: int, bytes: Seq<u8>)
    requires
        0 <= offset,
        offset + bytes.len() <= contents.len(),
    ensures
        spec_write_bytes(contents, offset, bytes).len() == contents.len(),
        spec_write_bytes(contents, offset, bytes).subrange(offset, offset + bytes.len()) == bytes,
        forall|i: int|
            0 <= i < contents.len() && !(offset <= i < offset + bytes.len()) ==> #[trigger] spec_write_bytes(
                contents,
                offset,
                bytes,
            )[i] == contents[i],
{
    assert(spec_write_bytes(contents, offset, bytes).subrange(offset, offset + bytes.len()) =~= bytes);
}

/// An open `AEROSPRS` image on a storage backend.
pub struct SparseDiskV1<S> {
    storage: S,
    header: SparseHeaderV1,
    table: Vec<u64>,
}

impl<S: StorageBackend> SparseDiskV1<S> {
    /// The image's header.
    pub closed spec fn header_view(&self) -> SparseHeaderV1 {
        self.header
    }

    /// The in-memory allocation table: physical offset of each logical block, 0 if unallocated.
    pub closed spec fn table_view(&self) -> Seq<u64> {
        self.table@
    }

    /// The backend's bytes.
    pub closed spec fn storage_view(&self) -> Seq<u8> {
        self.storage.contents()
    }

    /// Structural invariant: sound geometry and a table entry for every logical block.
    pub closed spec fn wf(&self) -> bool {
        &&& spec_geometry_ok(self.header)
        &&& self.table@.len() == self.header.table_entries
    }

    /// Addressable bytes.
    pub closed spec fn capacity_spec(&self) -> int {
        self.header.total_sectors * self.header.sector_size
    }

    /// The disk contents the guest sees.
    pub closed spec fn logical(&self) -> Seq<u8> {
        spec_logical(self.header, self.table@, self.storage.contents())
    }

    /// The allocated blocks are block-aligned, lie inside the backend past the metadata, and
    /// no two logical blocks share a physical block.
    pub closed spec fn blocks_disjoint(&self) -> bool {
        spec_blocks_disjoint(self.header, self.table@, self.storage.contents())
    }

    /// The image's header.
    pub fn header(&self) -> (h: &SparseHeaderV1)
        ensures
            *h == self.header_view(),
    {
        &self.header
    }

    /// `(logical block, physical offset)` for every allocated block, in logical order.
    pub fn allocated_blocks(&self) -> (r: Vec<(u64, u64)>)
        ensures
            r@ == spec_allocated(self.table_view(), self.table_view().len() as int),
    {
        let mut out: Vec<(u64, u64)> = Vec::new();
        let mut i: usize = 0;
        while i < self.table.len()
            invariant
                i <= self.table@.len(),
                out@ == spec_allocated(self.table@, i as int),
            decreases self.table@.len() - i,
        {
            if self.table[i] != 0 {
                out.push((i as u64, self.table[i]));
            }
            i += 1;
        }
        out
    }

    /// Give back the backend.
    pub fn into_storage(self) -> (s: S)
        ensures
            s.contents() == self.storage_view(),
    {
        self.storage
    }

    /// A disk whose metadata is on its backend, with a header that validates, reopens as
    /// itself: same header, table and bytes, so the same guest contents, and its blocks stay
    /// disjoint.
    pub proof fn lemma_reopens_as_itself(&self)
        requires
            self.wf(),
            self.persisted(),
            spec_header_error(self.header_view()) is None,
        ensures
            spec_opened(self.storage_view()) == Ok::<(SparseHeaderV1, Seq<u64>, Seq<u8>), DiskError>(
                (self.header_view(), self.table_view(), self.storage_view()),
            ),
            self.blocks_disjoint() == spec_blocks_disjoint(
                self.header_view(),
                self.table_view(),
                self.storage_view(),
            ),
            self.logical() == spec_logical(self.header_view(), self.table_view(), self.storage_view()),
    {
        lemma_reopen(self.header, self.table@, self.storage.contents());
    }

    /// Total addressable bytes (saturating).
    pub fn capacity(&self) -> (c: u64)
        ensures
            c == if self.capacity_spec() > u64::MAX { u64::MAX as int } else { self.capacity_spec() },
    {
        match self.header.total_sectors.checked_mul(self.header.sector_size as u64) {
            Some(c) => c,
            None => u64::MAX,
        }
    }

    /// Reject a byte range that runs past the end of the disk.
    pub fn check_range(&self, offset: u64, len: usize) -> (r: Result<(), DiskError>)
        requires
            self.wf(),
        ensures
            offset + len > u64::MAX ==> r == Err::<(), DiskError>(DiskError::OffsetOverflow),
            offset + len <= u64::MAX && offset + len > self.capacity_spec() ==> r == Err::<
                (),
                DiskError,
            >(
                DiskError::OutOfBounds {
                    offset,
                    len,
                    capacity: self.capacity_spec() as u64,
                },
            ),
            offset + len <= self.capacity_spec() ==> r is Ok,
    {
        let capacity = self.capacity();
        let end = match offset.checked_add(len as u64) {
            Some(e) => e,
            None => {
                return Err(DiskError::OffsetOverflow);
            },
        };
        if end > capacity {
            return Err(DiskError::OutOfBounds { offset, len, capacity });
        }
        Ok(())
    }

    /// Split the next chunk of a transfer at the block boundary it runs into: the table index,
    /// the offset within that block, and how many of the `remaining` bytes fall inside it.
    pub fn split_at_block(&self, at: u64, remaining: usize, block_size: u64) -> (r: Result<
        (usize, usize, usize),
        DiskError,
    >)
        requires
            0 < block_size <= usize::MAX,
        ensures
            at / block_size < self.table_view().len() ==> r == Ok::<
                (usize, usize, usize),
                DiskError,
            >(
                (
                    (at / block_size) as usize,
                    (at % block_size) as usize,
                    if block_size - at % block_size < remaining {
                        (block_size - at % block_size) as usize
                    } else {
                        remaining
                    },
                ),
            ),
            at / block_size >= self.table_view().len() ==> r == Err::<
                (usize, usize, usize),
                DiskError,
            >(DiskError::CorruptImage("logical block out of range")),
    {
        let logical_block = at / block_size;
        let block_off = (at % block_size) as usize;
        if logical_block >= self.table.len() as u64 {
            return Err(DiskError::CorruptImage("logical block out of range"));
        }
        let idx = logical_block as usize;
        let space = (block_size as usize) - block_off;
        let to_copy = if space < remaining { space } else { remaining };
        Ok((idx, block_off, to_copy))
    }

    /// Read `buf.len()` guest bytes at `offset`.
    pub fn read_at(&mut self, offset: u64, buf: &mut [u8]) -> (r: Result<(), DiskError>)
        requires
            old(self).wf(),
        ensures
            final(self).header_view() == old(self).header_view(),
            final(self).table_view() == old(self).table_view(),
            final(self).storage_view() == old(self).storage_view(),
            final(buf)@.len() == old(buf)@.len(),
            offset + old(buf)@.len() > u64::MAX ==> r == Err::<(), DiskError>(
                DiskError::OffsetOverflow,
            ),
            offset + old(buf)@.len() <= u64::MAX && offset + old(buf)@.len()
                > old(self).capacity_spec() ==> r == Err::<(), DiskError>(
                DiskError::OutOfBounds {
                    offset,
                    len: old(buf)@.len() as usize,
                    capacity: old(self).capacity_spec() as u64,
                },
            ),
            r is Ok ==> final(buf)@ == old(self).logical().subrange(
                offset as int,
                offset + old(buf)@.len(),
            ),
            offset + old(buf)@.len() <= old(self).capacity_spec() && spec_range_unallocated(
                old(self).header_view(),
                old(self).table_view(),
                offset as int,
                old(buf)@.len() as int,
            ) ==> r is Ok,
            final(self).wf(),
            offset + old(buf)@.len() <= old(self).capacity_spec() ==> (r matches Err(e) ==> S::reports(
                e,
            ) || e == DiskError::CorruptImage("physical offset overflow")),
    {
        self.check_range(offset, buf.len())?;
        let bs = self.header.block_size as u64;
        let n = buf.len();
        let ghost holes = spec_range_unallocated(self.header, self.table@, offset as int, n as int);
        let mut done: usize = 0;
        while done < n
            invariant
                self.wf(),
                self.header == old(self).header,
                self.table@ == old(self).table@,
                self.storage.contents() == old(self).storage.contents(),
                bs == self.header.block_size,
                n == buf@.len(),
                n == old(buf)@.len(),
                done <= n,
                offset + n <= self.capacity_spec(),
                forall|j: int| 0 <= j < done ==> buf@[j] == spec_logical_byte(self.header, self.table@, self.storage.contents(), offset + j),
                holes == spec_range_unallocated(self.header, self.table@, offset as int, n as int),
            decreases n - done,
        {
            let at = offset + done as u64;
            proof {
                lemma_block_index_in_table(self.header, at as int);
            }
            let (idx, block_off, to_copy) = self.split_at_block(at, n - done, bs)?;
            let physical = self.table[idx];
            if physical == 0 {
                let mut k: usize = 0;
                while k < to_copy
                    invariant
                        k <= to_copy,
                        done + to_copy <= n,
                        n == buf@.len(),
                        forall|j: int| 0 <= j < done ==> buf@[j] == spec_logical_byte(self.header, self.table@, self.storage.contents(), offset + j),
                        forall|j: int| done <= j < done + k ==> buf@[j] == 0u8,
                    decreases to_copy - k,
                {
                    buf[done + k] = 0;
                    k += 1;
                }
            } else {
                assert(!holes) by {
                    assert(self.table@[at as int / (self.header.block_size as int)] != 0);
                }
                let phys = match physical.checked_add(block_off as u64) {
                    Some(p) => p,
                    None => {
                        return Err(DiskError::CorruptImage("physical offset overflow"));
                    },
                };
                let mut tmp = vec![0u8; to_copy];
                self.storage.read_at(phys, tmp.as_mut_slice())?;
                let mut k: usize = 0;
                while k < to_copy
                    invariant
                        k <= to_copy,
                        tmp@.len() == to_copy,
                        done + to_copy <= n,
                        n == buf@.len(),
                        forall|j: int| 0 <= j < done ==> buf@[j] == spec_logical_byte(self.header, self.table@, self.storage.contents(), offset + j),
                        forall|j: int| done <= j < done + k ==> buf@[j] == tmp@[j - done],
                    decreases to_copy - k,
                {
                    buf[done + k] = tmp[k];
                    k += 1;
                }
            }
            proof {
                assert forall|j: int| done <= j < done + to_copy implies buf@[j]
                    == spec_logical_byte(self.header, self.table@, self.storage.contents(), offset + j) by {
                    lemma_same_block(self.header, at as int, offset + j);
                }
            }
            done += to_copy;
        }
        assert(buf@ =~= old(self).logical().subrange(offset as int, offset + n));
        Ok(())
    }

    /// Persist one allocation-table entry.
    pub fn write_table_entry(&mut self, logical_block: u64, physical_offset: u64) -> (r: Result<
        (),
        DiskError,
    >)
        ensures
            final(self).header_view() == old(self).header_view(),
            final(self).table_view() == old(self).table_view(),
            logical_block * 8 > u64::MAX || old(self).header_view().table_offset + logical_block
                * 8 > u64::MAX ==> r == Err::<(), DiskError>(
                DiskError::Unsupported("table offset overflow"),
            ),
            r is Ok ==> final(self).storage_view() == spec_write_bytes(
                old(self).storage_view(),
                old(self).header_view().table_offset + logical_block * 8,
                spec_u64_to_le_bytes(physical_offset),
            ),
            r matches Err(e) ==> S::reports(e) || (e == DiskError::Unsupported("table offset overflow")
                && (logical_block * 8 > u64::MAX || old(self).header_view().table_offset
                + logical_block * 8 > u64::MAX)),
    {
        let logical_block_bytes = match logical_block.checked_mul(8) {
            Some(b) => b,
            None => {
                return Err(DiskError::Unsupported("table offset overflow"));
            },
        };
        let offset = match self.header.table_offset.checked_add(logical_block_bytes) {
            Some(o) => o,
            None => {
                return Err(DiskError::Unsupported("table offset overflow"));
            },
        };
        let bytes = u64_to_le_bytes(physical_offset);
        self.storage.write_at(offset, bytes.as_slice())
    }

    /// Append a zero-filled block past both the data offset and the end of the backend, and
    /// return its physical offset.
    pub fn allocate_block(&mut self) -> (r: Result<u64, DiskError>)
        requires
            old(self).wf(),
        ensures
            final(self).header_view() == old(self).header_view(),
            final(self).table_view() == old(self).table_view(),
            r matches Ok(off) ==> {
                let base = if old(self).storage_view().len() < old(self).header_view().data_offset {
                    old(self).header_view().data_offset as int
                } else {
                    old(self).storage_view().len() as int
                };
                &&& off == spec_align_up(base, old(self).header_view().block_size as int)
                &&& final(self).storage_view() == spec_write_zeroes(
                    old(self).storage_view(),
                    off as int,
                    old(self).header_view().block_size as int,
                )
            },
            spec_align_up(
                if old(self).storage_view().len() < old(self).header_view().data_offset {
                    old(self).header_view().data_offset as int
                } else {
                    old(self).storage_view().len() as int
                },
                old(self).header_view().block_size as int,
            ) > u64::MAX ==> r is Err,
            r matches Err(e) ==> S::reports(e) || e == DiskError::Unsupported("offset overflow"),
    {
        let block_size = self.header.block_size as u64;
        let mut len = self.storage.len()?;
        if len < self.header.data_offset {
            len = self.header.data_offset;
        }
        let offset = align_up(len, block_size)?;
        write_zeroes(&mut self.storage, offset, block_size)?;
        Ok(offset)
    }


    /// Write `buf` as guest bytes at `offset`, allocating blocks as needed.
    ///
    /// An all-zero chunk aimed at an unallocated block is skipped: the block already reads as
    /// zeros. Allocating a block records the intent in the journal before the table entry is
    /// written, and clears the journal once the entry is in place.
    pub fn write_at(&mut self, offset: u64, buf: &[u8]) -> (r: Result<(), DiskError>)
        requires
            old(self).wf(),
        ensures
            final(self).wf(),
            final(self).header_view() == old(self).header_view(),
            offset + buf@.len() > u64::MAX ==> r == Err::<(), DiskError>(DiskError::OffsetOverflow),
            offset + buf@.len() <= u64::MAX && offset + buf@.len() > old(self).capacity_spec()
                ==> r == Err::<(), DiskError>(
                DiskError::OutOfBounds {
                    offset,
                    len: buf@.len() as usize,
                    capacity: old(self).capacity_spec() as u64,
                },
            ),
            forall|b: int|
                0 <= b < old(self).table_view().len() && old(self).table_view()[b] != 0
                    ==> #[trigger] final(self).table_view()[b] == old(self).table_view()[b],
            forall|b: int|
                0 <= b < old(self).table_view().len() && old(self).table_view()[b] == 0
                    && #[trigger] final(self).table_view()[b] != 0 ==> spec_dirties_block(
                    old(self).header_view(),
                    offset as int,
                    buf@,
                    b,
                ),
            r is Ok ==> forall|b: int|
                0 <= b < old(self).table_view().len() && spec_dirties_block(
                    old(self).header_view(),
                    offset as int,
                    buf@,
                    b,
                ) ==> #[trigger] final(self).table_view()[b] != 0,
            offset + buf@.len() <= old(self).capacity_spec() && spec_all_zero(buf@)
                && spec_range_unallocated(
                old(self).header_view(),
                old(self).table_view(),
                offset as int,
                buf@.len() as int,
            ) ==> r is Ok && final(self).table_view() == old(self).table_view()
                && final(self).storage_view() == old(self).storage_view(),
            offset + buf@.len() <= old(self).capacity_spec() ==> (r matches Err(e) ==> S::reports(e)
                || e == DiskError::CorruptImage("physical offset overflow") || e
                == DiskError::Unsupported("offset overflow")),
            offset + buf@.len() > old(self).capacity_spec() ==> final(self).table_view() == old(
                self,
            ).table_view() && final(self).storage_view() == old(self).storage_view(),
            r is Ok && old(self).blocks_disjoint() && old(self).persisted() ==> final(self).persisted(),
            r is Ok && old(self).blocks_disjoint() ==> {
                &&& final(self).blocks_disjoint()
                &&& final(self).logical() == spec_write_bytes(
                    old(self).logical(),
                    offset as int,
                    buf@,
                )
            },
    {
        self.check_range(offset, buf.len())?;
        let bs = self.header.block_size as u64;
        let n = buf.len();
        let mut done: usize = 0;
        let ghost sound = self.blocks_disjoint();
        let ghost kept = self.persisted();
        let ghost quiet = spec_all_zero(buf@) && spec_range_unallocated(
            self.header,
            self.table@,
            offset as int,
            n as int,
        );
        let ghost t0 = self.table@;
        assert(buf@.subrange(0, 0) =~= Seq::<u8>::empty());
        assert(spec_write_bytes(old(self).logical(), offset as int, Seq::<u8>::empty())
            =~= old(self).logical());
        while done < n
            invariant
                self.wf(),
                self.header == old(self).header,
                bs == self.header.block_size,
                n == buf@.len(),
                done <= n,
                offset + n <= self.capacity_spec(),
                sound == old(self).blocks_disjoint(),
                kept == old(self).persisted(),
                sound ==> self.blocks_disjoint(),
                sound && kept ==> self.persisted(),
                self.table@.len() == self.header.table_entries,
                sound ==> self.logical() == spec_write_bytes(
                    old(self).logical(),
                    offset as int,
                    buf@.subrange(0, done as int),
                ),
                t0 == old(self).table@,
                self.table@.len() == t0.len(),
                forall|b: int| 0 <= b < t0.len() && t0[b] != 0 ==> #[trigger] self.table@[b] == t0[b],
                forall|b: int|
                    0 <= b < t0.len() && t0[b] == 0 && #[trigger] self.table@[b] != 0
                        ==> spec_dirties_block(self.header, offset as int, buf@, b),
                forall|j: int|
                    0 <= j < done && #[trigger] buf@[j] != 0 ==> self.table@[(offset + j) / (bs as int)]
                        != 0,
                quiet == (spec_all_zero(buf@) && spec_range_unallocated(
                    self.header,
                    t0,
                    offset as int,
                    n as int,
                )),
                quiet ==> self.table@ == t0 && self.storage.contents() == old(self).storage.contents(),
            decreases n - done,
        {
            let at = offset + done as u64;
            proof {
                lemma_block_index_in_table(self.header, at as int);
                vstd::arithmetic::div_mod::lemma_fundamental_div_mod(at as int, bs as int);
                vstd::arithmetic::div_mod::lemma_mod_bound(at as int, bs as int);
                assert(at as int == (at / bs) * (bs as int) + at % bs) by (nonlinear_arith)
                    requires
                        at as int == (bs as int) * (at / bs) + at % bs,
                ;
            }
            let (idx, block_off, to_copy) = self.split_at_block(at, n - done, bs)?;
            let chunk = slice_subrange(buf, done, done + to_copy);
            let ghost before = self.logical();
            let ghost prev_table = self.table@;
            let ghost prev_storage = self.storage.contents();
            proof {
                if sound {
                    lemma_write_prefix_step(
                        old(self).logical(),
                        offset as int,
                        buf@,
                        done as int,
                        to_copy as int,
                    );
                }
            }
            if self.table[idx] == 0 {
                let mut all_zero = true;
                let mut k: usize = 0;
                while k < to_copy
                    invariant
                        k <= to_copy,
                        chunk@.len() == to_copy,
                        all_zero <==> forall|j: int| 0 <= j < k ==> chunk@[j] == 0u8,
                    decreases to_copy - k,
                {
                    if chunk[k] != 0 {
                        all_zero = false;
                    }
                    k += 1;
                }
                if all_zero {
                    proof {
                        assert forall|j: int| 0 <= j < done + to_copy && #[trigger] buf@[j] != 0 implies self.table@[(offset + j) / (bs as int)] != 0 by {
                            if j >= done {
                                assert(chunk@[j - done] == buf@[j]);
                            }
                        }
                        if sound {
                            lemma_zero_chunk_into_hole(
                                self.header,
                                self.table@,
                                self.storage.contents(),
                                idx as int,
                                block_off as int,
                                chunk@,
                            );
                        }
                    }
                    done += to_copy;
                    continue;
                }
                let ghost witness = choose|j: int| 0 <= j < to_copy && chunk@[j] != 0u8;
                proof {
                    assert(chunk@[witness] == buf@[done + witness]);
                    lemma_same_block(self.header, at as int, at + witness);
                    assert(spec_dirties_block(self.header, offset as int, buf@, idx as int));
                    assert(!spec_all_zero(buf@));
                }
                let new_physical = self.allocate_block()?;
                proof {
                    let base = if prev_storage.len() < self.header.data_offset {
                        self.header.data_offset as int
                    } else {
                        prev_storage.len() as int
                    };
                    lemma_align_up(base, bs as int);
                }
                let phys = match new_physical.checked_add(block_off as u64) {
                    Some(p) => p,
                    None => {
                        return Err(DiskError::CorruptImage("physical offset overflow"));
                    },
                };
                let ghost s1 = self.storage.contents();
                proof {
                    if sound {
                        let base = if prev_storage.len() < self.header.data_offset {
                            self.header.data_offset as int
                        } else {
                            prev_storage.len() as int
                        };
                        lemma_align_up(base, bs as int);
                        lemma_install_zero_block(
                            self.header,
                            prev_table,
                            prev_storage,
                            idx as int,
                            new_physical as int,
                        );
                        if kept {
                            lemma_persisted_high_write(
                                self.header,
                                prev_table,
                                prev_storage,
                                new_physical as int,
                                zeros(self.header.block_size as nat),
                            );
                        }
                    }
                }
                self.storage.write_at(phys, chunk)?;
                let ghost t2 = prev_table.update(idx as int, new_physical);
                proof {
                    if sound {
                        lemma_write_inside_block(
                            self.header,
                            t2,
                            s1,
                            idx as int,
                            block_off as int,
                            chunk@,
                        );
                    }
                }
                proof {
                    if sound && kept {
                        lemma_persisted_high_write(self.header, prev_table, s1, phys as int, chunk@);
                    }
                }
                let rec = JournalRecord { state: 1, logical_block: idx as u64, physical_offset: new_physical };
                let rec_bytes = rec.encode();
                let ghost s2 = self.storage.contents();
                self.storage.write_at(self.header.journal_offset, &rec_bytes)?;
                proof {
                    if sound {
                        lemma_metadata_write_keeps_blocks(
                            self.header,
                            t2,
                            s2,
                            self.header.journal_offset as int,
                            rec_bytes@,
                        );
                        lemma_blocks_kept(self.header, t2, s2, self.storage.contents());
                    }
                }
                self.storage.flush()?;
                self.table.set(idx, new_physical);
                assert(self.table@ == prev_table.update(idx as int, new_physical));
                let ghost s3 = self.storage.contents();
                self.write_table_entry(idx as u64, new_physical)?;
                proof {
                    if sound {
                        lemma_auto_spec_u64_to_from_le_bytes();
                        assert(spec_u64_to_le_bytes(new_physical).len() == 8);
                        lemma_metadata_write_keeps_blocks(
                            self.header,
                            t2,
                            s3,
                            self.header.table_offset + idx * 8,
                            spec_u64_to_le_bytes(new_physical),
                        );
                        lemma_blocks_kept(self.header, t2, s3, self.storage.contents());
                    }
                }
                self.storage.flush()?;
                let empty_bytes = JournalRecord::empty().encode();
                let ghost s4 = self.storage.contents();
                self.storage.write_at(self.header.journal_offset, &empty_bytes)?;
                proof {
                    if sound {
                        lemma_metadata_write_keeps_blocks(
                            self.header,
                            t2,
                            s4,
                            self.header.journal_offset as int,
                            empty_bytes@,
                        );
                        lemma_blocks_kept(self.header, t2, s4, self.storage.contents());
                        if kept {
                            lemma_persisted_allocation(
                                self.header,
                                prev_table,
                                s2,
                                idx as int,
                                new_physical,
                                rec_bytes@,
                            );
                        }
                    }
                }
                self.storage.flush()?;
            } else {
                proof {
                    assert(!quiet) by {
                        if quiet {
                            assert(t0[at as int / (bs as int)] == 0);
                        }
                    }
                }
                let phys = match self.table[idx].checked_add(block_off as u64) {
                    Some(p) => p,
                    None => {
                        return Err(DiskError::CorruptImage("physical offset overflow"));
                    },
                };
                self.storage.write_at(phys, chunk)?;
                proof {
                    if sound && kept {
                        lemma_persisted_high_write(self.header, prev_table, prev_storage, phys as int, chunk@);
                    }
                    if sound {
                        lemma_write_inside_block(
                            self.header,
                            prev_table,
                            prev_storage,
                            idx as int,
                            block_off as int,
                            chunk@,
                        );
                    }
                }
            }
            proof {
                assert(self.table@[idx as int] != 0);
                assert forall|j: int| 0 <= j < done + to_copy && #[trigger] buf@[j] != 0 implies self.table@[(offset + j) / (bs as int)] != 0 by {
                    if j < done {
                        lemma_block_index_in_table(self.header, offset + j);
                        let q = (offset + j) / (bs as int);
                        assert(prev_table[q] != 0);
                        assert(prev_table[idx as int] == 0 ==> q != idx);
                    } else {
                        lemma_same_block(self.header, at as int, offset + j);
                    }
                }
            }
            done += to_copy;
        }
        assert(buf@.subrange(0, n as int) =~= buf@);
        proof {
            assert forall|b: int|
                0 <= b < t0.len() && spec_dirties_block(self.header, offset as int, buf@, b)
                    implies #[trigger] self.table@[b] != 0 by {
                let j = choose|j: int| 0 <= j < buf@.len() && #[trigger] buf@[j] != 0 && (offset + j) / (bs as int) == b;
                assert(buf@[j] != 0);
            }
        }
        Ok(())
    }


    /// The backend holds this disk's header, an idle journal and its table.
    pub closed spec fn persisted(&self) -> bool {
        spec_persisted(self.header, self.table@, self.storage.contents())
    }

    /// Format `storage` as an empty image of `total_sectors` sectors.
    pub fn create(storage: S, sector_size: u32, total_sectors: u64, block_size: u32) -> (r: Result<
        Self,
        DiskError,
    >)
        ensures
            spec_create_error(sector_size, total_sectors, block_size) matches Some(e) ==> r
                == Err::<Self, DiskError>(e),
            r matches Err(e) ==> spec_create_error(sector_size, total_sectors, block_size) == Some(e)
                || S::reports(e) || e == DiskError::QuotaExceeded,
            r matches Ok(d) ==> {
                let h = spec_create_header(sector_size, total_sectors, block_size);
                &&& spec_create_error(sector_size, total_sectors, block_size) is None
                &&& d.wf()
                &&& d.header_view() == h
                &&& d.table_view() == Seq::new(h.table_entries as nat, |i: int| 0u64)
                &&& d.storage_view() == spec_created_bytes(storage.contents(), h)
                &&& d.logical() == zeros((total_sectors * sector_size) as nat)
                &&& d.blocks_disjoint()
                &&& d.persisted()
            },
    {
        let mut storage = storage;
        if sector_size != 512 && sector_size != 4096 {
            return Err(DiskError::Unsupported("sector size (expected 512 or 4096)"));
        }
        if block_size == 0 || block_size as u64 % sector_size as u64 != 0 {
            return Err(DiskError::Unsupported("block size must be a multiple of sector size"));
        }
        if block_size > MAX_BLOCK_SIZE_BYTES {
            return Err(DiskError::Unsupported("block size too large"));
        }
        let total_bytes = match total_sectors.checked_mul(sector_size as u64) {
            Some(t) => t,
            None => {
                return Err(DiskError::Unsupported("disk size overflow"));
            },
        };
        let block_size_u64 = block_size as u64;
        let table_entries = div_ceil_u64(total_bytes, block_size_u64);
        proof {
            lemma_blocks_for(total_bytes as int, block_size as int);
        }
        let table_bytes = match table_entries.checked_mul(8) {
            Some(t) => t,
            None => {
                return Err(DiskError::Unsupported("table size overflow"));
            },
        };
        if table_bytes > MAX_TABLE_BYTES {
            return Err(DiskError::Unsupported("allocation table too large"));
        }
        let journal_offset = HEADER_SIZE;
        let table_offset = journal_offset + JOURNAL_SIZE;
        let table_end = table_offset + table_bytes;
        let data_offset = align_up(table_end, block_size_u64)?;
        proof {
            lemma_align_up(table_end as int, block_size as int);
        }
        let header = SparseHeaderV1 {
            sector_size,
            block_size,
            total_sectors,
            table_offset,
            table_entries,
            journal_offset,
            data_offset,
        };
        let ghost s0 = storage.contents();
        let hb = header.encode();
        storage.write_at(0, &hb)?;
        let jb = JournalRecord::empty().encode();
        storage.write_at(journal_offset, &jb)?;
        write_zeroes(&mut storage, table_offset, table_bytes)?;
        storage.set_len(data_offset)?;
        storage.flush()?;
        if table_entries > usize::MAX as u64 {
            return Err(DiskError::Unsupported("allocation table too large"));
        }
        let n = table_entries as usize;
        let mut table: Vec<u64> = Vec::new();
        if table.try_reserve(n).is_err() {
            return Err(DiskError::QuotaExceeded);
        }
        let mut i: usize = 0;
        while i < n
            invariant
                i <= n,
                table@ == Seq::new(i as nat, |j: int| 0u64),
            decreases n - i,
        {
            table.push(0);
            i += 1;
            assert(table@ =~= Seq::new(i as nat, |j: int| 0u64));
        }
        let d = SparseDiskV1 { storage, header, table };
        proof {
            let h = header;
            let data = d.storage.contents();
            assert(data =~= spec_created_bytes(s0, h));
            lemma_le_bytes_of_zero();
            lemma_auto_spec_u32_to_from_le_bytes();
            lemma_auto_spec_u64_to_from_le_bytes();
            assert(spec_encode_header(h).len() == 4096);
            assert(spec_encode_record(spec_empty_record()).len() == 4096);
            assert(data.subrange(0, 4096) =~= spec_encode_header(h));
            assert(data.subrange(4096, 8192) =~= spec_encode_record(spec_empty_record()));
            assert forall|i: int| 0 <= i < h.table_entries implies #[trigger] data.subrange(
                h.table_offset + 8 * i,
                h.table_offset + 8 * i + 8,
            ) == spec_u64_to_le_bytes(d.table@[i]) by {
                assert(data.subrange(h.table_offset + 8 * i, h.table_offset + 8 * i + 8) =~= zeros(8));
            }
            assert forall|pos: int| 0 <= pos < total_sectors * sector_size implies #[trigger] d.logical()[pos]
                == 0u8 by {
                lemma_block_index_in_table(h, pos);
            }
            assert(d.logical() =~= zeros((total_sectors * sector_size) as nat));
        }
        Ok(d)
    }


    /// Replay a journal record left by an interrupted allocation.
    pub fn recover_journal(&mut self) -> (r: Result<(), DiskError>)
        requires
            old(self).wf(),
            old(self).storage_view().len() >= old(self).header_view().data_offset,
        ensures
            final(self).wf(),
            final(self).header_view() == old(self).header_view(),
            spec_replay(old(self).header_view(), old(self).table_view(), old(self).storage_view())
                is Err ==> r is Err,
            r is Ok ==> spec_replay(
                old(self).header_view(),
                old(self).table_view(),
                old(self).storage_view(),
            ) == Ok::<(Seq<u64>, Seq<u8>), DiskError>(
                (final(self).table_view(), final(self).storage_view()),
            ),
            r matches Err(e) ==> S::reports(e) || spec_replay(
                old(self).header_view(),
                old(self).table_view(),
                old(self).storage_view(),
            ) == Err::<(Seq<u64>, Seq<u8>), DiskError>(e),
    {
        let mut jbuf = vec![0u8; 4096];
        self.storage.read_at(self.header.journal_offset, jbuf.as_mut_slice())?;
        let record = JournalRecord::decode(jbuf.as_slice())?;
        if record.state == 0 {
            return Ok(());
        }
        if record.logical_block >= self.header.table_entries {
            return Err(DiskError::CorruptImage("journal logical block out of range"));
        }
        if record.physical_offset != 0 && record.physical_offset % (self.header.block_size as u64)
            != 0 {
            return Err(DiskError::CorruptImage("journal physical offset not aligned"));
        }
        if record.logical_block >= self.table.len() as u64 {
            return Err(DiskError::CorruptImage("journal logical block out of range"));
        }
        let idx = record.logical_block as usize;
        let existing = self.table[idx];
        if existing != 0 && existing != record.physical_offset {
            return Err(DiskError::CorruptImage("journal conflicts with allocation table"));
        }
        self.table.set(idx, record.physical_offset);
        self.write_table_entry(record.logical_block, record.physical_offset)?;
        let empty_bytes = JournalRecord::empty().encode();
        self.storage.write_at(self.header.journal_offset, &empty_bytes)?;
        self.storage.flush()?;
        Ok(())
    }

    /// Open an existing image, replaying its journal.
    pub fn open(backend: S) -> (r: Result<Self, DiskError>)
        ensures
            backend.contents().len() < HEADER_SIZE ==> r == Err::<Self, DiskError>(
                DiskError::CorruptImage("sparse header truncated"),
            ),
            spec_opened(backend.contents()) is Err ==> r is Err,
            r matches Err(e) ==> S::reports(e) || e == DiskError::QuotaExceeded || spec_opened(
                backend.contents(),
            ) == Err::<(SparseHeaderV1, Seq<u64>, Seq<u8>), DiskError>(e),
            r matches Ok(d) ==> d.blocks_disjoint() == spec_blocks_disjoint(
                d.header_view(),
                d.table_view(),
                d.storage_view(),
            ) && d.persisted() == spec_persisted(d.header_view(), d.table_view(), d.storage_view())
                && d.logical() == spec_logical(d.header_view(), d.table_view(), d.storage_view()),
            r matches Ok(d) ==> {
                &&& d.wf()
                &&& spec_opened(backend.contents()) == Ok::<
                    (SparseHeaderV1, Seq<u64>, Seq<u8>),
                    DiskError,
                >((d.header_view(), d.table_view(), d.storage_view()))
            },
    {
        let mut storage = backend;
        let ghost d0 = storage.contents();
        let mut header_buf = vec![0u8; 4096];
        match storage.read_at(0, header_buf.as_mut_slice()) {
            Ok(()) => {},
            Err(DiskError::OutOfBounds { .. }) => {
                return Err(DiskError::CorruptImage("sparse header truncated"));
            },
            Err(e) => {
                return Err(e);
            },
        }
        let header = SparseHeaderV1::decode(header_buf.as_slice())?;
        proof {
            lemma_valid_header_geometry(header);
        }
        let file_len = storage.len()?;
        if file_len < header.data_offset {
            return Err(DiskError::CorruptImage("sparse image truncated"));
        }
        let table_bytes = match header.table_entries.checked_mul(8) {
            Some(t) => t,
            None => {
                return Err(DiskError::CorruptImage("table size overflow"));
            },
        };
        if table_bytes > MAX_TABLE_BYTES {
            return Err(DiskError::Unsupported("allocation table too large"));
        }
        if header.table_entries > usize::MAX as u64 || table_bytes > usize::MAX as u64 {
            return Err(DiskError::Unsupported("allocation table too large"));
        }
        let mut table: Vec<u64> = Vec::new();
        if table.try_reserve(header.table_entries as usize).is_err() {
            return Err(DiskError::QuotaExceeded);
        }
        let ghost stored = spec_stored_table(header, d0);
        let mut remaining = table_bytes as usize;
        let mut off = header.table_offset;
        while remaining > 0
            invariant
                storage.contents() == d0,
                d0 == backend.contents(),
                d0.len() >= header.data_offset,
                spec_geometry_ok(header),
                table_bytes == header.table_entries * 8,
                remaining <= table_bytes,
                remaining % 8 == 0,
                off == header.table_offset + (table_bytes - remaining),
                table@ == stored.subrange(0, (table_bytes - remaining) / 8),
                stored == spec_stored_table(header, d0),
            decreases remaining,
        {
            let read_len = if remaining < 65536 { remaining } else { 65536 };
            let mut buf = vec![0u8; read_len];
            match storage.read_at(off, buf.as_mut_slice()) {
                Ok(()) => {},
                Err(DiskError::OutOfBounds { .. }) => {
                    return Err(DiskError::CorruptImage("allocation table out of bounds"));
                },
                Err(e) => {
                    return Err(e);
                },
            }
            let ghost base = (table_bytes - remaining) / 8;
            let mut k: usize = 0;
            while k < read_len
                invariant
                    k <= read_len,
                    k % 8 == 0,
                    read_len % 8 == 0,
                    read_len <= remaining,
                    buf@ == d0.subrange(off as int, off + read_len),
                    off == header.table_offset + 8 * base,
                    base >= 0,
                    base + read_len / 8 <= header.table_entries,
                    table@ == stored.subrange(0, base + k / 8),
                    stored == spec_stored_table(header, d0),
                    d0.len() >= header.data_offset,
                    spec_geometry_ok(header),
                decreases read_len - k,
            {
                assert(k + 8 <= read_len);
                let v = u64_from_le_bytes(slice_subrange(buf.as_slice(), k, k + 8));
                proof {
                    let i = base + k / 8;
                    assert(k as int == 8 * (k as int / 8));
                    assert(i < header.table_entries);
                    assert(buf@.subrange(k as int, k + 8) =~= d0.subrange(
                        header.table_offset + 8 * i,
                        header.table_offset + 8 * i + 8,
                    ));
                    assert(stored[i] == spec_u64_from_le_bytes(d0.subrange(
                        header.table_offset + 8 * i,
                        header.table_offset + 8 * i + 8,
                    )));
                }
                table.push(v);
                assert(v == stored[base + k / 8]);
                k += 8;
                assert(table@ =~= stored.subrange(0, base + k / 8));
            }
            off = match off.checked_add(read_len as u64) {
                Some(o) => o,
                None => {
                    return Err(DiskError::OffsetOverflow);
                },
            };
            remaining -= read_len;
        }
        assert(table@ =~= stored);
        let mut disk = SparseDiskV1 { storage, header, table };
        disk.recover_journal()?;
        Ok(disk)
    }


    /// Make earlier writes durable.
    pub fn flush(&mut self) -> (r: Result<(), DiskError>)
        ensures
            final(self).header_view() == old(self).header_view(),
            final(self).table_view() == old(self).table_view(),
            final(self).storage_view() == old(self).storage_view(),
    {
        self.storage.flush()
    }

    /// Total addressable bytes.
    pub fn capacity_bytes(&self) -> (c: u64)
        requires
            self.wf(),
        ensures
            c == self.capacity_spec(),
    {
        self.capacity()
    }

    /// Read whole 512-byte sectors starting at `lba`.
    pub fn read_sectors(&mut self, lba: u64, buf: &mut [u8]) -> (r: Result<(), DiskError>)
        requires
            old(self).wf(),
        ensures
            final(self).header_view() == old(self).header_view(),
            final(self).table_view() == old(self).table_view(),
            final(self).storage_view() == old(self).storage_view(),
            final(buf)@.len() == old(buf)@.len(),
            lba * 512 > u64::MAX ==> r == Err::<(), DiskError>(DiskError::OffsetOverflow),
            r is Ok ==> lba * 512 + old(buf)@.len() <= old(self).capacity_spec() && final(buf)@
                == old(self).logical().subrange(lba * 512, lba * 512 + old(buf)@.len()),
            lba * 512 + old(buf)@.len() > old(self).capacity_spec() ==> r is Err,
            lba * 512 + old(buf)@.len() <= old(self).capacity_spec() && spec_range_unallocated(
                old(self).header_view(),
                old(self).table_view(),
                lba * 512,
                old(buf)@.len() as int,
            ) ==> r is Ok,
            lba * 512 + old(buf)@.len() <= old(self).capacity_spec() ==> (r matches Err(e)
                ==> S::reports(e) || e == DiskError::CorruptImage("physical offset overflow")),
            final(self).wf(),
    {
        let offset = match lba.checked_mul(512) {
            Some(o) => o,
            None => {
                return Err(DiskError::OffsetOverflow);
            },
        };
        self.read_at(offset, buf)
    }

    /// Write whole 512-byte sectors starting at `lba`.
    pub fn write_sectors(&mut self, lba: u64, buf: &[u8]) -> (r: Result<(), DiskError>)
        requires
            old(self).wf(),
        ensures
            final(self).wf(),
            final(self).header_view() == old(self).header_view(),
            lba * 512 > u64::MAX ==> r == Err::<(), DiskError>(DiskError::OffsetOverflow),
            r is Ok && old(self).blocks_disjoint() && old(self).persisted() ==> final(self).persisted(),
            r is Ok && old(self).blocks_disjoint() ==> {
                &&& final(self).blocks_disjoint()
                &&& final(self).logical() == spec_write_bytes(old(self).logical(), lba * 512, buf@)
            },
            lba * 512 + buf@.len() > old(self).capacity_spec() ==> r is Err,
            lba * 512 + buf@.len() <= old(self).capacity_spec() && spec_all_zero(buf@)
                && spec_range_unallocated(
                old(self).header_view(),
                old(self).table_view(),
                lba * 512,
                buf@.len() as int,
            ) ==> r is Ok && final(self).table_view() == old(self).table_view()
                && final(self).storage_view() == old(self).storage_view(),
            lba * 512 + buf@.len() <= old(self).capacity_spec() ==> (r matches Err(e) ==> S::reports(e)
                || e == DiskError::CorruptImage("physical offset overflow") || e
                == DiskError::Unsupported("offset overflow")),
            r is Ok ==> forall|b: int|
                0 <= b < old(self).table_view().len() && spec_dirties_block(
                    old(self).header_view(),
                    lba * 512,
                    buf@,
                    b,
                ) ==> #[trigger] final(self).table_view()[b] != 0,
            forall|b: int|
                0 <= b < old(self).table_view().len() && old(self).table_view()[b] != 0
                    ==> #[trigger] final(self).table_view()[b] == old(self).table_view()[b],
    {
        let offset = match lba.checked_mul(512) {
            Some(o) => o,
            None => {
                return Err(DiskError::OffsetOverflow);
            },
        };
        self.write_at(offset, buf)
    }

}

/// A byte inside the disk lies in a block that has a table entry.
proof fn lemma_block_index_in_table(h: SparseHeaderV1, pos: int)
    requires
        spec_geometry_ok(h),
        0 <= pos < h.total_sectors * h.sector_size,
    ensures
        pos / (h.block_size as int) < h.table_entries,
{
    let bs = h.block_size as int;
    let t = h.total_sectors * h.sector_size;
    lemma_blocks_for(t, bs);
    assert(pos / bs < blocks_for(t, bs)) by (nonlinear_arith)
        requires
            blocks_for(t, bs) * bs >= t,
            0 <= pos < t,
            bs > 0,
    ;
}

/// Positions `j` with `at <= j < at + (bs - at % bs)` share `at`'s block.
proof fn lemma_same_block(h: SparseHeaderV1, at: int, j: int)
    requires
        h.block_size > 0,
        at >= 0,
        at <= j < at + (h.block_size - at % (h.block_size as int)),
    ensures
        j / (h.block_size as int) == at / (h.block_size as int),
        j % (h.block_size as int) == at % (h.block_size as int) + (j - at),
{
    let bs = h.block_size as int;
    vstd::arithmetic::div_mod::lemma_fundamental_div_mod(at, bs);
    let q = at / bs;
    let r = at % bs;
    assert(bs * q == q * bs) by (nonlinear_arith);
    vstd::arithmetic::div_mod::lemma_fundamental_div_mod_converse(j, bs, q, r + (j - at));
}

} // verus!
