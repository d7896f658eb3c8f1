use aero::sparse::{
    JournalRecord, SparseDiskV1, SparseHeaderV1, HEADER_SIZE, JOURNAL_SIZE, MAX_BLOCK_SIZE_BYTES,
    MAX_TABLE_BYTES,
};
use aero::storage::{DiskError, MemStorage, StorageBackend};

const TEST_SECTOR_SIZE: u32 = 512;
const TEST_TOTAL_SECTORS: u64 = 128;
const TEST_BLOCK_SIZE: u32 = 4096;

fn write_reference(reference: &mut [u8], lba: u64, data: &[u8]) {
    let start = (lba * TEST_SECTOR_SIZE as u64) as usize;
    let end = start + data.len();
    reference[start..end].copy_from_slice(data);
}

fn make_pattern(len: usize, seed: u8) -> Vec<u8> {
    let mut buf = vec![0u8; len];
    for (idx, b) in buf.iter_mut().enumerate() {
        *b = seed.wrapping_add((idx as u8).wrapping_mul(31));
    }
    buf
}

#[test]
fn header_roundtrip() {
    let header = SparseHeaderV1 {
        sector_size: 512,
        block_size: 1024 * 1024,
        total_sectors: 1024,
        table_offset: 4096 + 4096,
        table_entries: 1,
        journal_offset: 4096,
        data_offset: 1024 * 1024,
    };
    let enc = header.encode();
    let dec = SparseHeaderV1::decode(&enc).unwrap();
    assert_eq!(header, dec);
}

#[test]
fn decode_rejects_total_size_overflow() {
    let header = SparseHeaderV1 {
        sector_size: 512,
        block_size: 512,
        total_sectors: u64::MAX,
        table_offset: 8192,
        table_entries: 1,
        journal_offset: 4096,
        data_offset: 8192,
    };
    let enc = header.encode();
    let err = SparseHeaderV1::decode(&enc).unwrap_err();
    assert!(matches!(err, DiskError::CorruptImage("disk size overflow")));
}

#[test]
fn decode_rejects_table_entries_mismatch() {
    let header = SparseHeaderV1 {
        sector_size: 512,
        block_size: 1024 * 1024,
        total_sectors: 1024,
        table_offset: 8192,
        table_entries: 2,
        journal_offset: 4096,
        data_offset: 1024 * 1024,
    };
    let enc = header.encode();
    let err = SparseHeaderV1::decode(&enc).unwrap_err();
    assert!(matches!(err, DiskError::CorruptImage("table entries mismatch")));
}

#[test]
fn decode_rejects_allocation_table_too_large() {
    let table_entries = (MAX_TABLE_BYTES / 8) + 1;
    let header = SparseHeaderV1 {
        sector_size: 512,
        block_size: 512,
        total_sectors: table_entries,
        table_offset: 8192,
        table_entries,
        journal_offset: 4096,
        data_offset: 8192,
    };
    let enc = header.encode();
    let err = SparseHeaderV1::decode(&enc).unwrap_err();
    assert!(matches!(err, DiskError::Unsupported("allocation table too large")));
}

#[test]
fn decode_rejects_block_size_too_large() {
    let header = SparseHeaderV1 {
        sector_size: 512,
        block_size: MAX_BLOCK_SIZE_BYTES + 512,
        total_sectors: 1024,
        table_offset: 8192,
        table_entries: 1,
        journal_offset: 4096,
        data_offset: (MAX_BLOCK_SIZE_BYTES as u64) + 512,
    };
    let enc = header.encode();
    let err = SparseHeaderV1::decode(&enc).unwrap_err();
    assert!(matches!(err, DiskError::Unsupported("block size too large")));
}

#[test]
fn unallocated_reads_zero() {
    let storage = MemStorage::default();
    let mut disk =
        SparseDiskV1::create(storage, TEST_SECTOR_SIZE, TEST_TOTAL_SECTORS, TEST_BLOCK_SIZE)
            .unwrap();
    let mut buf = vec![0xAA; 512 * 4];
    disk.read_sectors(0, &mut buf).unwrap();
    assert!(buf.iter().all(|b| *b == 0));
}

#[test]
fn create_open_read_write_roundtrip() {
    let storage = MemStorage::default();
    let mut disk =
        SparseDiskV1::create(storage, TEST_SECTOR_SIZE, TEST_TOTAL_SECTORS, TEST_BLOCK_SIZE)
            .unwrap();

    let disk_bytes = (TEST_TOTAL_SECTORS * TEST_SECTOR_SIZE as u64) as usize;
    let mut reference = vec![0u8; disk_bytes];

    let write1_lba = 1;
    let write1 = make_pattern(TEST_SECTOR_SIZE as usize * 2, 0x11);
    disk.write_sectors(write1_lba, &write1).unwrap();
    write_reference(&mut reference, write1_lba, &write1);

    let write2_lba = 7;
    let write2 = make_pattern(TEST_SECTOR_SIZE as usize * 3, 0x55);
    disk.write_sectors(write2_lba, &write2).unwrap();
    write_reference(&mut reference, write2_lba, &write2);

    let write3_lba = 40;
    let write3 = make_pattern(TEST_SECTOR_SIZE as usize, 0xA3);
    disk.write_sectors(write3_lba, &write3).unwrap();
    write_reference(&mut reference, write3_lba, &write3);

    disk.flush().unwrap();

    let storage = disk.into_storage();
    let mut disk = SparseDiskV1::open(storage).unwrap();

    let mut hole = vec![0xCC; TEST_SECTOR_SIZE as usize * 2];
    disk.read_sectors(20, &mut hole).unwrap();
    assert!(hole.iter().all(|b| *b == 0));

    let mut read_back = vec![0u8; reference.len()];
    disk.read_sectors(0, &mut read_back).unwrap();
    assert_eq!(read_back, reference);

    let allocated: Vec<_> = disk.allocated_blocks();
    assert_eq!(allocated.len(), 3);
}

#[test]
fn journal_replay_on_open_updates_table_and_clears_journal() {
    let storage = MemStorage::default();
    let disk =
        SparseDiskV1::create(storage, TEST_SECTOR_SIZE, TEST_TOTAL_SECTORS, TEST_BLOCK_SIZE)
            .unwrap();
    let mut storage = disk.into_storage();

    let mut header_buf = [0u8; HEADER_SIZE as usize];
    storage.read_at(0, &mut header_buf).unwrap();
    let header = SparseHeaderV1::decode(&header_buf).unwrap();

    let logical_block = 3u64;
    let physical_offset = header.data_offset;

    storage.set_len(physical_offset + header.block_size as u64).unwrap();
    storage.write_at(physical_offset, &vec![0x5Au8; header.block_size as usize]).unwrap();

    let mut table_entry = [0u8; 8];
    storage.read_at(header.table_offset + logical_block * 8, &mut table_entry).unwrap();
    assert_eq!(u64::from_le_bytes(table_entry), 0);

    let rec = JournalRecord { state: 1, logical_block, physical_offset };
    storage.write_at(header.journal_offset, &rec.encode()).unwrap();

    let mut disk = SparseDiskV1::open(storage).unwrap();
    assert!(
        disk.allocated_blocks().iter().any(|&(l, p)| l == logical_block && p == physical_offset),
        "expected journal record to be replayed into allocation table"
    );

    let sectors_per_block = header.block_size as u64 / header.sector_size as u64;
    let lba = logical_block * sectors_per_block;
    let mut buf = vec![0u8; header.sector_size as usize];
    disk.read_sectors(lba, &mut buf).unwrap();
    assert!(buf.iter().all(|b| *b == 0x5A));

    let header = *disk.header();
    let mut storage = disk.into_storage();

    let mut table_entry = [0u8; 8];
    storage.read_at(header.table_offset + logical_block * 8, &mut table_entry).unwrap();
    assert_eq!(u64::from_le_bytes(table_entry), physical_offset);

    let mut jbuf = [0u8; JOURNAL_SIZE as usize];
    storage.read_at(header.journal_offset, &mut jbuf).unwrap();
    assert_eq!(jbuf, JournalRecord::empty().encode());

    let disk = SparseDiskV1::open(storage).unwrap();
    assert!(
        disk.allocated_blocks().iter().any(|&(l, p)| l == logical_block && p == physical_offset),
        "expected allocation table entry to persist after journal replay"
    );
}

#[test]
fn journal_conflict_detection() {
    let storage = MemStorage::default();
    let mut disk =
        SparseDiskV1::create(storage, TEST_SECTOR_SIZE, TEST_TOTAL_SECTORS, TEST_BLOCK_SIZE)
            .unwrap();

    disk.write_sectors(0, &make_pattern(TEST_SECTOR_SIZE as usize, 0xF0)).unwrap();
    disk.flush().unwrap();

    let existing_phys = disk
        .allocated_blocks()
        .iter()
        .find(|(l, _)| *l == 0)
        .expect("logical block 0 should be allocated")
        .1;

    let header = *disk.header();
    let mut storage = disk.into_storage();

    let conflicting_phys = existing_phys + header.block_size as u64;
    storage.set_len(conflicting_phys + header.block_size as u64).unwrap();
    let rec = JournalRecord { state: 1, logical_block: 0, physical_offset: conflicting_phys };
    storage.write_at(header.journal_offset, &rec.encode()).unwrap();

    let err = match SparseDiskV1::open(storage) {
        Ok(_) => panic!("expected open to fail due to journal/table conflict"),
        Err(err) => err,
    };
    assert!(matches!(err, DiskError::CorruptImage("journal conflicts with allocation table")));
}

#[test]
fn zero_writes_to_holes_stay_sparse() {
    let mut disk =
        SparseDiskV1::create(MemStorage::default(), TEST_SECTOR_SIZE, TEST_TOTAL_SECTORS, TEST_BLOCK_SIZE)
            .unwrap();
    disk.write_sectors(3, &vec![0u8; 1024]).unwrap();
    assert!(disk.allocated_blocks().is_empty());
    let mut buf = vec![1u8; 1024];
    disk.read_sectors(3, &mut buf).unwrap();
    assert!(buf.iter().all(|b| *b == 0));
}

#[test]
fn out_of_range_transfers_are_refused() {
    let mut disk =
        SparseDiskV1::create(MemStorage::default(), TEST_SECTOR_SIZE, TEST_TOTAL_SECTORS, TEST_BLOCK_SIZE)
            .unwrap();
    let mut buf = vec![0u8; 1024];
    let err = disk.read_at(TEST_TOTAL_SECTORS * 512 - 512, &mut buf).unwrap_err();
    assert_eq!(err, DiskError::OutOfBounds { offset: 65024, len: 1024, capacity: 65536 });
    assert_eq!(disk.write_at(u64::MAX, &buf).unwrap_err(), DiskError::OffsetOverflow);
}

#[test]
fn create_rejects_bad_geometry() {
    assert!(matches!(
        SparseDiskV1::create(MemStorage::default(), 1024, 8, 4096).err(),
        Some(DiskError::Unsupported("sector size (expected 512 or 4096)"))
    ));
    assert!(matches!(
        SparseDiskV1::create(MemStorage::default(), 512, 8, 1000).err(),
        Some(DiskError::Unsupported("block size must be a multiple of sector size"))
    ));
    assert!(matches!(
        SparseDiskV1::create(MemStorage::default(), 512, u64::MAX, 4096).err(),
        Some(DiskError::Unsupported("disk size overflow"))
    ));
}

#[test]
fn created_layout_matches_the_format() {
    let disk = SparseDiskV1::create(MemStorage::default(), 512, 128, 4096).unwrap();
    let h = *disk.header();
    assert_eq!(h.journal_offset, 4096);
    assert_eq!(h.table_offset, 8192);
    assert_eq!(h.table_entries, 16);
    assert_eq!(h.data_offset, 12288);
    assert_eq!(disk.capacity_bytes(), 65536);
    let storage = disk.into_storage();
    assert_eq!(storage.data.len(), 12288);
    assert_eq!(&storage.data[0..8], b"AEROSPRS");
}

#[test]
fn journal_record_roundtrip() {
    let rec = JournalRecord { state: 1, logical_block: 7, physical_offset: 0x1234_5000 };
    assert_eq!(JournalRecord::decode(&rec.encode()).unwrap(), rec);
    let blank = [0u8; 4096];
    assert_eq!(JournalRecord::decode(&blank).unwrap(), JournalRecord::empty());
}

/// Distinct, offset-dependent bytes, so a copy that lands in the wrong place is visible.
fn pattern(offset: u64, len: usize) -> Vec<u8> {
    (0..len).map(|i| ((offset as usize + i) * 31 % 251) as u8).collect()
}

#[test]
fn a_legacy_image_reads_back_what_was_written_across_block_boundaries() {
    let mut disk = SparseDiskV1::create(MemStorage::default(), 512, 512, 4096)
        .expect("create legacy image");

    // Straddle three blocks in one write, then read it back in one read.
    let offset = 4096u64 - 7;
    let data = pattern(11, 4096 * 2 + 64);
    disk.write_at(offset, &data).expect("write");

    let mut got = vec![0u8; data.len()];
    disk.read_at(offset, &mut got).expect("read");
    assert_eq!(got, data);
}

#[test]
fn a_reopened_legacy_image_keeps_its_blocks() {
    let mut disk = SparseDiskV1::create(MemStorage::default(), 512, 512, 4096).unwrap();
    let writes: Vec<(u64, Vec<u8>)> = vec![
        (0, pattern(0, 600)),
        (4096 * 3, pattern(3000, 1024)),
        (4096 * 10 - 100, pattern(7777, 400)),
        (512 * 512 - 512, pattern(4242, 512)),
    ];
    for (offset, data) in &writes {
        disk.write_at(*offset, data).unwrap();
    }
    disk.flush().unwrap();
    let mut disk = SparseDiskV1::open(disk.into_storage()).unwrap();
    let blocks: Vec<u64> = disk.allocated_blocks().iter().map(|(l, _)| *l).collect();
    assert_eq!(blocks, vec![0, 3, 9, 10, 63]);
    for (offset, data) in &writes {
        let mut got = vec![0u8; data.len()];
        disk.read_at(*offset, &mut got).unwrap();
        assert_eq!(&got, data);
    }
    let mut gap = vec![1u8; 2048];
    disk.read_at(4096 * 6, &mut gap).unwrap();
    assert!(gap.iter().all(|b| *b == 0));
}

#[test]
fn memory_backend_grows_with_zeros_and_reports_its_length() {
    let mut m = MemStorage::new();
    m.write_at(2, &[1, 2]).unwrap();
    assert_eq!(m.data, vec![0, 0, 1, 2]);
    assert_eq!(m.len(), Ok(4));
    m.set_len(6).unwrap();
    assert_eq!(m.data, vec![0, 0, 1, 2, 0, 0]);
    m.set_len(1).unwrap();
    assert_eq!(m.data, vec![0]);
    assert_eq!(m.flush(), Ok(()));
    assert_eq!(m.write_at(u64::MAX, &[1]), Err(DiskError::OffsetOverflow));
    assert_eq!(m.data, vec![0]);
}

#[test]
fn zero_fill_of_nothing_leaves_the_backend_alone() {
    let mut m = MemStorage::new();
    m.write_at(0, &[7, 7, 7]).unwrap();
    assert_eq!(aero::sparse::write_zeroes(&mut m, 1, 0), Ok(()));
    assert_eq!(m.data, vec![7, 7, 7]);
    assert_eq!(aero::sparse::write_zeroes(&mut m, 1, 4), Ok(()));
    assert_eq!(m.data, vec![7, 0, 0, 0, 0]);
}

#[test]
fn zero_writes_into_holes_allocate_nothing() {
    let mut d = SparseDiskV1::create(MemStorage::default(), 512, 128, 4096).unwrap();
    d.write_at(0, &[0u8; 6000]).unwrap();
    assert_eq!(d.allocated_blocks().len(), 0);
    d.write_at(4096, &[0, 0, 1]).unwrap();
    assert_eq!(d.allocated_blocks(), vec![(1, 12288)]);
    let mut buf = [0xAAu8; 4];
    d.read_at(4095, &mut buf).unwrap();
    assert_eq!(buf, [0, 0, 0, 1]);
}
