use voxels::region::{
    check_header, sectors_needed, DiskWrite, HeaderEntry, RegionFile, RegionSource, DATA_START_SECTOR,
    HEADER_TOTAL_SIZE, NUM_SLOTS,
};
use voxels::store::{StorageError, SECTOR_SIZE};

/// Carry out a write, as a file does.
fn apply(file: &mut Vec<u8>, write: &DiskWrite) {
    let start = write.offset as usize;
    let end = start + write.bytes.len();
    if !write.bytes.is_empty() && end > file.len() {
        file.resize(end, 0);
    }
    file[start..end].copy_from_slice(&write.bytes);
}

fn open(file: &[u8]) -> Result<RegionFile, StorageError> {
    check_header(&file[0..8])?;
    assert!(RegionFile::table_in_range(&file[8..HEADER_TOTAL_SIZE]));
    RegionFile::open(&file[0..8], &file[8..HEADER_TOTAL_SIZE])
}

fn write(region: &mut RegionFile, file: &mut Vec<u8>, slot: usize, data: &[u8], tag: u8) {
    assert!(region.has_room(slot, data.len()));
    let chunk = region.write_chunk(slot, data, tag);
    apply(file, &chunk.data);
    let entry = region.commit_chunk(&chunk);
    apply(file, &entry);
}

fn read(region: &RegionFile, file: &[u8], slot: usize) -> Option<(Vec<u8>, u8)> {
    let read = region.read_chunk(slot)?;
    let start = read.offset as usize;
    Some((file[start..start + read.len as usize].to_vec(), read.format_tag))
}

#[test]
fn test_header_entry_roundtrip() {
    let entry = HeaderEntry {
        sector_start: 42,
        byte_size: 12345,
        format_tag: 1,
    };
    let bytes = entry.to_bytes();
    let parsed = HeaderEntry::from_bytes(&bytes);
    assert_eq!(parsed.sector_start, 42);
    assert_eq!(parsed.byte_size, 12345);
    assert_eq!(parsed.format_tag, 1);
}

#[test]
fn test_header_entry_absent() {
    let entry = HeaderEntry::absent();
    assert!(!entry.is_present());
    assert_eq!(entry.sector_start, 0);
    assert_eq!(entry.byte_size, 0);
    assert_eq!(entry.format_tag, 0);
}

#[test]
fn test_sectors_needed() {
    assert_eq!(sectors_needed(0), 0);
    assert_eq!(sectors_needed(1), 1);
    assert_eq!(sectors_needed(4096), 1);
    assert_eq!(sectors_needed(4097), 2);
    assert_eq!(sectors_needed(8192), 2);
}

#[test]
fn test_create_region_file() {
    let (rf, file) = RegionFile::create();
    assert_eq!(rf.next_sector(), DATA_START_SECTOR);
    for slot in 0..NUM_SLOTS {
        assert!(!rf.has_chunk(slot));
    }

    let expected_size = DATA_START_SECTOR as u64 * SECTOR_SIZE as u64;
    assert_eq!(file.len() as u64, expected_size);
}

#[test]
fn test_open_validates_magic() {
    let mut data = vec![0u8; HEADER_TOTAL_SIZE];
    data[0..4].copy_from_slice(b"XXXX");

    let err = open(&data).err().unwrap();
    assert!(matches!(err, StorageError::InvalidMagic));
}

#[test]
fn test_open_validates_version() {
    let mut data = vec![0u8; HEADER_TOTAL_SIZE];
    data[0..4].copy_from_slice(b"VXRG");
    data[4..6].copy_from_slice(&99u16.to_le_bytes());

    let err = open(&data).err().unwrap();
    assert!(matches!(err, StorageError::UnsupportedVersion(99)));
}

#[test]
fn test_write_and_read_chunk() {
    let (mut rf, mut file) = RegionFile::create();
    let data = vec![42u8; 100];
    write(&mut rf, &mut file, 0, &data, 1);

    assert!(rf.has_chunk(0));
    assert!(!rf.has_chunk(1));

    let (read_data, format_tag) = read(&rf, &file, 0).unwrap();
    assert_eq!(read_data, data);
    assert_eq!(format_tag, 1);
}

#[test]
fn test_read_absent_chunk() {
    let (rf, file) = RegionFile::create();
    assert!(read(&rf, &file, 0).is_none());
}

#[test]
fn test_overwrite_smaller() {
    let (mut rf, mut file) = RegionFile::create();

    let big = vec![1u8; 5000]; // 2 sectors
    write(&mut rf, &mut file, 0, &big, 1);
    let sector_before = rf.sector_start(0);

    let small = vec![2u8; 100]; // 1 sector, fits in old 2
    write(&mut rf, &mut file, 0, &small, 1);
    let sector_after = rf.sector_start(0);

    // Should reuse same sectors
    assert_eq!(sector_before, sector_after);

    let (read_data, _) = read(&rf, &file, 0).unwrap();
    assert_eq!(read_data, small);
}

#[test]
fn test_overwrite_larger() {
    let (mut rf, mut file) = RegionFile::create();

    let small = vec![1u8; 100]; // 1 sector
    write(&mut rf, &mut file, 0, &small, 1);
    let sector_before = rf.sector_start(0);

    let big = vec![2u8; 5000]; // 2 sectors, doesn't fit
    write(&mut rf, &mut file, 0, &big, 1);
    let sector_after = rf.sector_start(0);

    // Should allocate new sectors
    assert_ne!(sector_before, sector_after);

    let (read_data, _) = read(&rf, &file, 0).unwrap();
    assert_eq!(read_data, big);
}

#[test]
fn test_remove_chunk() {
    let (mut rf, mut file) = RegionFile::create();
    write(&mut rf, &mut file, 0, &[1u8; 100], 1);
    assert!(rf.has_chunk(0));

    let entry = rf.remove_chunk(0);
    apply(&mut file, &entry);
    assert!(!rf.has_chunk(0));
    assert!(read(&rf, &file, 0).is_none());
}

#[test]
fn test_multiple_chunks() {
    let (mut rf, mut file) = RegionFile::create();

    for slot in 0..10 {
        let data = vec![slot as u8; 200 + slot * 100];
        write(&mut rf, &mut file, slot, &data, 1);
    }

    for slot in 0..10 {
        let (data, _) = read(&rf, &file, slot).unwrap();
        assert_eq!(data.len(), 200 + slot * 100);
        assert!(data.iter().all(|&b| b == slot as u8));
    }
}

#[test]
fn test_persistence_across_reopen() {
    let mut file;
    {
        let (mut rf, contents) = RegionFile::create();
        file = contents;
        write(&mut rf, &mut file, 0, &[10u8; 500], 1);
        write(&mut rf, &mut file, 100, &[20u8; 3000], 1);
    }

    let mut rf = open(&file).ok().unwrap();
    assert!(rf.has_chunk(0));
    assert!(rf.has_chunk(100));
    assert!(!rf.has_chunk(1));

    let (data0, _) = read(&rf, &file, 0).unwrap();
    assert_eq!(data0, vec![10u8; 500]);

    let (data100, _) = read(&rf, &file, 100).unwrap();
    assert_eq!(data100, vec![20u8; 3000]);

    // Can still write after reopen
    write(&mut rf, &mut file, 50, &[30u8; 100], 1);
    let (data50, _) = read(&rf, &file, 50).unwrap();
    assert_eq!(data50, vec![30u8; 100]);
}

#[test]
fn test_open_or_create() {
    // Creates when doesn't exist
    let (mut rf, contents) = RegionFile::open_or_create(&RegionSource::Missing)
        .ok()
        .unwrap();
    let mut file = contents.unwrap();
    write(&mut rf, &mut file, 0, &[1u8; 100], 1);
    drop(rf);

    // Opens when exists
    let source = RegionSource::Stored {
        header: file[0..8].to_vec(),
        table: file[8..HEADER_TOTAL_SIZE].to_vec(),
    };
    let (rf, contents) = RegionFile::open_or_create(&source).ok().unwrap();
    assert!(contents.is_none());
    assert!(rf.has_chunk(0));
    let (data, _) = read(&rf, &file, 0).unwrap();
    assert_eq!(data, vec![1u8; 100]);
}

#[test]
fn test_last_slot() {
    let (mut rf, mut file) = RegionFile::create();
    let last = NUM_SLOTS - 1;
    write(&mut rf, &mut file, last, &[99u8; 50], 1);

    let (data, _) = read(&rf, &file, last).unwrap();
    assert_eq!(data, vec![99u8; 50]);
}

#[test]
fn entry_layout() {
    let entry = HeaderEntry {
        sector_start: 0x0403_0201,
        byte_size: 0x0807_0605,
        format_tag: 9,
    };
    assert_eq!(entry.to_bytes(), [1, 2, 3, 4, 5, 6, 7, 8, 9, 0, 0, 0]);
    assert_eq!(
        HeaderEntry::from_bytes(&[1, 2, 3, 4, 5, 6, 7, 8, 9, 7, 7, 7]),
        entry
    );
    assert_eq!(entry.sector_count(), sectors_needed(0x0807_0605));
}

#[test]
fn fresh_file_begins_with_the_header() {
    let (_, file) = RegionFile::create();
    assert_eq!(file[0..8], [b'V', b'X', b'R', b'G', 1, 0, 0, 0]);
    assert!(file[8..].iter().all(|&b| b == 0));
}

#[test]
fn data_is_written_in_whole_sectors() {
    let (mut rf, _) = RegionFile::create();
    let chunk = rf.write_chunk(3, &[5u8; 4097], 2);
    assert_eq!(chunk.slot, 3);
    assert_eq!(chunk.data.offset, 13 * 4096);
    assert_eq!(chunk.data.bytes.len(), 2 * 4096);
    assert_eq!(chunk.data.bytes[4096], 5);
    assert!(chunk.data.bytes[4097..].iter().all(|&b| b == 0));
    // Nothing is stored until the bytes have been written
    assert!(!rf.has_chunk(3));
    let entry = rf.commit_chunk(&chunk);
    assert_eq!(entry.offset, 8 + 12 * 3);
    assert_eq!(entry.bytes, vec![13, 0, 0, 0, 1, 16, 0, 0, 2, 0, 0, 0]);
    assert!(rf.has_chunk(3));
    assert_eq!(rf.next_sector(), 15);
}

#[test]
fn writing_nothing_leaves_the_slot_empty() {
    let (mut rf, mut file) = RegionFile::create();
    write(&mut rf, &mut file, 7, &[1u8; 10], 1);
    write(&mut rf, &mut file, 7, &[], 1);
    assert!(!rf.has_chunk(7));
    assert!(read(&rf, &file, 7).is_none());
}

#[test]
fn overwriting_leaves_other_chunks_alone() {
    let (mut rf, mut file) = RegionFile::create();
    write(&mut rf, &mut file, 0, &[1u8; 4096], 1);
    write(&mut rf, &mut file, 1, &[2u8; 9000], 1);
    write(&mut rf, &mut file, 2, &[3u8; 1], 4);
    write(&mut rf, &mut file, 1, &[4u8; 8192], 1);
    write(&mut rf, &mut file, 0, &[5u8; 5000], 1);
    let entry = rf.remove_chunk(9);
    apply(&mut file, &entry);
    assert_eq!(read(&rf, &file, 0), Some((vec![5u8; 5000], 1)));
    assert_eq!(read(&rf, &file, 1), Some((vec![4u8; 8192], 1)));
    assert_eq!(read(&rf, &file, 2), Some((vec![3u8; 1], 4)));
    let reopened = open(&file).ok().unwrap();
    assert_eq!(reopened.next_sector(), rf.next_sector());
    assert_eq!(read(&reopened, &file, 1), Some((vec![4u8; 8192], 1)));
}

#[test]
fn reopening_forgets_dead_space_at_the_end() {
    let (mut rf, mut file) = RegionFile::create();
    write(&mut rf, &mut file, 0, &[1u8; 100], 1);
    write(&mut rf, &mut file, 1, &[2u8; 100], 1);
    let entry = rf.remove_chunk(1);
    apply(&mut file, &entry);
    assert_eq!(rf.next_sector(), 15);
    assert_eq!(open(&file).ok().unwrap().next_sector(), 14);
}

#[test]
fn sectors_run_out() {
    let (_, mut file) = RegionFile::create();
    let far = HeaderEntry {
        sector_start: u32::MAX - 1,
        byte_size: 4096,
        format_tag: 1,
    };
    file[8..20].copy_from_slice(&far.to_bytes());
    let rf = open(&file).ok().unwrap();
    assert_eq!(rf.next_sector(), u32::MAX);
    assert!(rf.has_room(0, 4096));
    assert!(!rf.has_room(0, 4097));
    assert!(!rf.has_room(1, 1));
    assert!(rf.has_room(1, 0));
    // A size has to fit its entry
    let (fresh, _) = RegionFile::create();
    assert!(fresh.has_room(0, u32::MAX as usize));
    assert!(!fresh.has_room(0, u32::MAX as usize + 1));

    let past = HeaderEntry {
        sector_start: u32::MAX,
        byte_size: 1,
        format_tag: 1,
    };
    file[8..20].copy_from_slice(&past.to_bytes());
    assert!(!RegionFile::table_in_range(&file[8..HEADER_TOTAL_SIZE]));
}
