use std::collections::HashMap;

use voxels::region::{DiskWrite, RegionFile, RegionSource, HEADER_TOTAL_SIZE};
use voxels::store::{
    accept_chunk, chunk_to_region, chunk_to_slot, region_filename, ChunkPos, ChunkStore, Opening,
    StorageError, FORMAT_ABSENT, FORMAT_HOT, CHUNK_LEVELS, CHUNK_SIZE, REGION_DIM,
};

/// A directory in memory.
type Dir = HashMap<String, Vec<u8>>;

fn apply(file: &mut Vec<u8>, write: &DiskWrite) {
    let start = write.offset as usize;
    let end = start + write.bytes.len();
    if !write.bytes.is_empty() && end > file.len() {
        file.resize(end, 0);
    }
    file[start..end].copy_from_slice(&write.bytes);
}

fn source(dir: &Dir, region: [i64; 3]) -> RegionSource {
    match dir.get(&region_filename(region)) {
        None => RegionSource::Missing,
        Some(file) => {
            assert!(RegionFile::table_in_range(&file[8..HEADER_TOTAL_SIZE]));
            RegionSource::Stored {
                header: file[0..8].to_vec(),
                table: file[8..HEADER_TOTAL_SIZE].to_vec(),
            }
        }
    }
}

fn save(store: &mut ChunkStore, dir: &mut Dir, pos: ChunkPos, data: &[u8]) -> Result<(), StorageError> {
    let region = chunk_to_region(pos);
    let name = region_filename(region);
    if let Opening::Create { file, contents } =
        store.open_or_create_region(region, &source(dir, region))?
    {
        dir.insert(name.clone(), contents);
        store.region_created(region, file);
    }
    assert!(store.has_room(pos, data.len()));
    let chunk = store.save_chunk(pos, data);
    let file = dir.get_mut(&name).unwrap();
    apply(file, &chunk.data);
    let entry = store.commit_chunk(pos, &chunk);
    apply(file, &entry);
    Ok(())
}

fn load(store: &mut ChunkStore, dir: &Dir, pos: ChunkPos) -> Result<Option<Vec<u8>>, StorageError> {
    let region = chunk_to_region(pos);
    store.try_open_region(region, &source(dir, region))?;
    match store.load_chunk(pos) {
        None => Ok(None),
        Some(read) => {
            let start = read.offset as usize;
            let data = dir[&region_filename(region)][start..start + read.len as usize].to_vec();
            accept_chunk(read, data).map(Some)
        }
    }
}

fn has(store: &mut ChunkStore, dir: &Dir, pos: ChunkPos) -> Result<bool, StorageError> {
    let region = chunk_to_region(pos);
    store.try_open_region(region, &source(dir, region))?;
    Ok(store.has_chunk(pos))
}

fn remove(store: &mut ChunkStore, dir: &mut Dir, pos: ChunkPos) -> Result<(), StorageError> {
    let region = chunk_to_region(pos);
    store.try_open_region(region, &source(dir, region))?;
    if let Some(entry) = store.remove_chunk(pos) {
        apply(dir.get_mut(&region_filename(region)).unwrap(), &entry);
    }
    Ok(())
}

#[test]
fn test_chunk_to_region_positive() {
    assert_eq!(chunk_to_region([0, 0, 0]), [0, 0, 0]);
    assert_eq!(chunk_to_region([15, 15, 15]), [0, 0, 0]);
    assert_eq!(chunk_to_region([16, 0, 0]), [1, 0, 0]);
    assert_eq!(chunk_to_region([31, 31, 31]), [1, 1, 1]);
    assert_eq!(chunk_to_region([32, 32, 32]), [2, 2, 2]);
}

#[test]
fn test_chunk_to_region_negative() {
    assert_eq!(chunk_to_region([-1, -1, -1]), [-1, -1, -1]);
    assert_eq!(chunk_to_region([-16, -16, -16]), [-1, -1, -1]);
    assert_eq!(chunk_to_region([-17, -17, -17]), [-2, -2, -2]);
}

#[test]
fn test_chunk_to_slot() {
    assert_eq!(chunk_to_slot([0, 0, 0]), 0);
    assert_eq!(chunk_to_slot([1, 0, 0]), 1);
    assert_eq!(chunk_to_slot([0, 1, 0]), 16);
    assert_eq!(chunk_to_slot([0, 0, 1]), 256);
    assert_eq!(chunk_to_slot([15, 15, 15]), 4095);
}

#[test]
fn test_chunk_to_slot_negative() {
    // -1 should map to local coord 15
    assert_eq!(chunk_to_slot([-1, 0, 0]), 15);
    assert_eq!(chunk_to_slot([0, -1, 0]), 15 * 16);
    assert_eq!(chunk_to_slot([-1, -1, -1]), 15 + 15 * 16 + 15 * 256);
}

#[test]
fn test_region_filename() {
    assert_eq!(region_filename([0, 0, 0]), "r.0.0.0.region");
    assert_eq!(region_filename([1, -2, 3]), "r.1.-2.3.region");
}

#[test]
fn test_chunk_store_roundtrip() {
    let mut dir = Dir::new();
    let mut store = ChunkStore::new();

    let values = [1_u8; 64];

    let pos: ChunkPos = [0, 0, 0];
    save(&mut store, &mut dir, pos, &values).unwrap();

    assert!(has(&mut store, &dir, pos).unwrap());
    assert!(!has(&mut store, &dir, [1, 0, 0]).unwrap());

    let loaded = load(&mut store, &dir, pos).unwrap().unwrap();
    for x in 0..4 {
        for y in 0..4 {
            for z in 0..4 {
                assert_eq!(loaded[x + 4 * y + 16 * z], values[x + 4 * y + 16 * z]);
            }
        }
    }
}

#[test]
fn test_chunk_store_negative_coords() {
    let mut dir = Dir::new();
    let mut store = ChunkStore::new();

    let values = [5_u8; 64];

    let pos: ChunkPos = [-10, -20, -30];
    save(&mut store, &mut dir, pos, &values).unwrap();

    let loaded = load(&mut store, &dir, pos).unwrap().unwrap();
    assert_eq!(loaded.first(), Some(&5));
}

#[test]
fn test_chunk_store_multiple_regions() {
    let mut dir = Dir::new();
    let mut store = ChunkStore::new();

    let pos_a: ChunkPos = [0, 0, 0];
    let pos_b: ChunkPos = [16, 0, 0]; // different region
    save(&mut store, &mut dir, pos_a, &[1_u8; 64]).unwrap();
    save(&mut store, &mut dir, pos_b, &[2_u8; 64]).unwrap();

    let loaded_a = load(&mut store, &dir, pos_a).unwrap().unwrap();
    let loaded_b = load(&mut store, &dir, pos_b).unwrap().unwrap();
    assert_eq!(loaded_a.first(), Some(&1));
    assert_eq!(loaded_b.first(), Some(&2));
}

#[test]
fn test_chunk_store_load_nonexistent() {
    let dir = Dir::new();
    let mut store = ChunkStore::new();
    assert!(load(&mut store, &dir, [0, 0, 0]).unwrap().is_none());
}

#[test]
fn test_chunk_store_remove() {
    let mut dir = Dir::new();
    let mut store = ChunkStore::new();

    let pos: ChunkPos = [0, 0, 0];

    save(&mut store, &mut dir, pos, &[1_u8; 64]).unwrap();
    assert!(has(&mut store, &dir, pos).unwrap());

    remove(&mut store, &mut dir, pos).unwrap();
    assert!(!has(&mut store, &dir, pos).unwrap());
    assert!(load(&mut store, &dir, pos).unwrap().is_none());
}

#[test]
fn test_chunk_store_persistence() {
    let mut dir = Dir::new();

    let pos: ChunkPos = [5, 5, 5];

    {
        let mut store = ChunkStore::new();
        save(&mut store, &mut dir, pos, &[3_u8; 64]).unwrap();
    }

    // Reopen from scratch
    let mut store = ChunkStore::new();
    let loaded = load(&mut store, &dir, pos).unwrap().unwrap();
    assert_eq!(loaded.first(), Some(&3));
}

#[test]
fn sizes_of_chunks_and_regions() {
    assert_eq!(CHUNK_SIZE, 4u32.pow(CHUNK_LEVELS as u32));
    assert_eq!(REGION_DIM, 16);
    assert_ne!(FORMAT_ABSENT, FORMAT_HOT);
}

#[test]
fn extreme_positions() {
    let pos = [i64::MIN, i64::MAX, -1];
    assert_eq!(chunk_to_region(pos), [i64::MIN / 16, i64::MAX / 16, -1]);
    assert_eq!(chunk_to_slot(pos), 15 * 16 + 15 * 256);
    assert_eq!(
        region_filename([i64::MIN, i64::MAX, -1]),
        "r.-9223372036854775808.9223372036854775807.-1.region"
    );
}

#[test]
fn neighbours_have_places_of_their_own() {
    let mut dir = Dir::new();
    let mut store = ChunkStore::new();
    let mut n = 0u8;
    for x in -2..2 {
        for y in -2..2 {
            for z in -2..2 {
                n += 1;
                save(&mut store, &mut dir, [x, y, z], &[n; 64]).unwrap();
            }
        }
    }
    assert_eq!(dir.len(), 8);
    n = 0;
    for x in -2..2 {
        for y in -2..2 {
            for z in -2..2 {
                n += 1;
                assert_eq!(load(&mut store, &dir, [x, y, z]).unwrap(), Some(vec![n; 64]));
            }
        }
    }
    remove(&mut store, &mut dir, [0, 0, 0]).unwrap();
    assert!(has(&mut store, &dir, [0, 0, 1]).unwrap());
    assert!(has(&mut store, &dir, [-1, 0, 0]).unwrap());
}

#[test]
fn a_region_is_opened_once() {
    let mut dir = Dir::new();
    let mut store = ChunkStore::new();
    save(&mut store, &mut dir, [0, 0, 0], &[1; 64]).unwrap();
    assert!(store.is_open([0, 0, 0]));
    assert!(!store.is_open([1, 0, 0]));
    // What is on the disk is not looked at again
    assert!(store.try_open_region([0, 0, 0], &RegionSource::Missing).unwrap());
    assert!(store.has_chunk([0, 0, 0]));
    assert!(!store.try_open_region([1, 0, 0], &RegionSource::Missing).unwrap());
    assert!(!store.has_room([16, 0, 0], 1));
    assert!(store.remove_chunk([16, 0, 0]).is_none());
}

#[test]
fn a_broken_file_is_refused() {
    let (_, mut file) = RegionFile::create();
    file[0] = b'X';
    let mut dir = Dir::new();
    dir.insert(region_filename([0, 0, 0]), file.clone());
    let mut store = ChunkStore::new();
    assert!(matches!(
        load(&mut store, &dir, [0, 0, 0]),
        Err(StorageError::InvalidMagic)
    ));
    assert!(!store.is_open([0, 0, 0]));
    file[0] = b'V';
    file[5] = 2;
    dir.insert(region_filename([0, 0, 0]), file);
    assert!(matches!(
        save(&mut store, &mut dir, [0, 0, 0], &[1; 64]),
        Err(StorageError::UnsupportedVersion(0x201))
    ));
    assert!(!store.is_open([0, 0, 0]));
}

#[test]
fn an_unknown_format_is_refused() {
    let mut dir = Dir::new();
    let mut store = ChunkStore::new();
    save(&mut store, &mut dir, [2, 0, 0], &[1; 64]).unwrap();
    // The format tag of slot 2
    dir.get_mut("r.0.0.0.region").unwrap()[8 + 12 * 2 + 8] = 7;
    let mut store = ChunkStore::new();
    assert!(has(&mut store, &dir, [2, 0, 0]).unwrap());
    assert!(matches!(
        load(&mut store, &dir, [2, 0, 0]),
        Err(StorageError::UnknownFormat(7))
    ));
}

#[test]
fn errors_in_words() {
    assert_eq!(StorageError::InvalidMagic.message(), "invalid region file magic");
    assert_eq!(
        StorageError::UnsupportedVersion(99).message(),
        "unsupported region file version: 99"
    );
    assert_eq!(
        StorageError::UnknownFormat(255).message(),
        "unknown chunk format tag: 255"
    );
    let error = StorageError::from(std::io::Error::other("disk on fire"));
    assert_eq!(error.message(), "I/O error: disk on fire");
    assert_eq!(error.source().unwrap().to_string(), "disk on fire");
    assert!(StorageError::InvalidMagic.source().is_none());
}
