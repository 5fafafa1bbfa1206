use bloxel::block::VoxelKind;
use bloxel::error::ChunkError;
use bloxel::location::PackedXYZ32;
use bloxel::store::{Run, VoxelRunStore};

fn pos(x: u8, y: u8, z: u8) -> PackedXYZ32 {
    PackedXYZ32::encode(x, y, z).unwrap()
}

#[test]
fn new_store_is_empty() {
    let store = VoxelRunStore::new();
    assert_eq!(store.len(), 0);
    assert_eq!(store.runs(), vec![]);
    assert_eq!(store.lookup(0, 0, 0), None);
}

#[test]
fn insert_files_a_run_by_its_lengths() {
    let stone = VoxelKind::new(1, 10);
    let mut store = VoxelRunStore::new();
    assert_eq!(store.insert(pos(2, 3, 4), stone, 4, 1, 2), Ok(()));
    assert_eq!(store.len(), 1);
    assert_eq!(
        store.get(pos(2, 3, 4)),
        Some(Run { start: pos(2, 3, 4), kind: stone, extent: pos(3, 0, 1) })
    );
    assert_eq!(store.get(pos(2, 3, 5)), None);
    assert_eq!(store.lookup(2, 3, 4), Some(stone));
    assert_eq!(store.lookup(5, 3, 5), Some(stone));
    assert_eq!(store.lookup(6, 3, 4), None);
    assert_eq!(store.lookup(2, 4, 4), None);
    assert_eq!(store.lookup(2, 3, 6), None);
    assert_eq!(store.lookup(1, 3, 4), None);
}

#[test]
fn insert_rejects_zero_length() {
    let stone = VoxelKind::new(1, 10);
    let mut store = VoxelRunStore::new();
    assert_eq!(store.insert(pos(0, 0, 0), stone, 0, 1, 1), Err(ChunkError::ZeroExtentRun));
    assert_eq!(store.insert(pos(0, 0, 0), stone, 1, 0, 1), Err(ChunkError::ZeroExtentRun));
    assert_eq!(store.insert(pos(0, 0, 0), stone, 1, 1, 0), Err(ChunkError::ZeroExtentRun));
    // A zero length is reported even if another length leaves the chunk.
    assert_eq!(store.insert(pos(0, 0, 0), stone, 0, 200, 1), Err(ChunkError::ZeroExtentRun));
    assert_eq!(store.len(), 0);
}

#[test]
fn insert_rejects_a_run_that_leaves_the_chunk() {
    let stone = VoxelKind::new(1, 10);
    let mut store = VoxelRunStore::new();
    assert_eq!(store.insert(pos(30, 0, 0), stone, 3, 1, 1), Err(ChunkError::CoordinateOutOfRange));
    assert_eq!(store.insert(pos(0, 31, 0), stone, 1, 2, 1), Err(ChunkError::CoordinateOutOfRange));
    assert_eq!(store.insert(pos(0, 0, 0), stone, 1, 1, 33), Err(ChunkError::CoordinateOutOfRange));
    assert_eq!(store.len(), 0);
    // The whole edge of the chunk is the longest run there is.
    assert_eq!(store.insert(pos(0, 0, 0), stone, 32, 32, 32), Ok(()));
    assert_eq!(store.lookup(31, 31, 31), Some(stone));
}

#[test]
fn insert_rejects_overlap_with_any_kind() {
    let stone = VoxelKind::new(1, 10);
    let dirt = VoxelKind::new(2, 3);
    let mut store = VoxelRunStore::new();
    assert_eq!(store.insert(pos(4, 4, 4), stone, 4, 4, 4), Ok(()));
    assert_eq!(store.insert(pos(4, 4, 4), stone, 1, 1, 1), Err(ChunkError::OverlappingRun));
    assert_eq!(store.insert(pos(7, 7, 7), dirt, 2, 2, 2), Err(ChunkError::OverlappingRun));
    assert_eq!(store.insert(pos(0, 5, 5), dirt, 32, 1, 1), Err(ChunkError::OverlappingRun));
    assert_eq!(store.len(), 1);
    // Touching is not overlapping.
    assert_eq!(store.insert(pos(8, 4, 4), dirt, 1, 4, 4), Ok(()));
    assert_eq!(store.insert(pos(3, 4, 4), dirt, 1, 4, 4), Ok(()));
    assert_eq!(store.len(), 3);
    assert_eq!(store.lookup(8, 4, 4), Some(dirt));
    assert_eq!(store.lookup(7, 4, 4), Some(stone));
}

#[test]
fn runs_lists_every_stored_run() {
    let stone = VoxelKind::new(1, 10);
    let dirt = VoxelKind::new(2, 3);
    let mut store = VoxelRunStore::new();
    store.insert(pos(1, 0, 0), dirt, 1, 1, 1).unwrap();
    store.insert(pos(0, 0, 0), stone, 1, 1, 1).unwrap();
    store.insert(pos(0, 0, 1), stone, 1, 1, 2).unwrap();
    let runs = store.runs();
    assert_eq!(
        runs,
        vec![
            Run { start: pos(0, 0, 0), kind: stone, extent: pos(0, 0, 0) },
            Run { start: pos(0, 0, 1), kind: stone, extent: pos(0, 0, 1) },
            Run { start: pos(1, 0, 0), kind: dirt, extent: pos(0, 0, 0) },
        ]
    );
}
