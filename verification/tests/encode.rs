use bevy::math::IVec3;
use bloxel::allocator::ChunkManager;
use bloxel::block::VoxelKind;
use bloxel::chunk::GridChunk;
use bloxel::delta::DeltaEntry;
use bloxel::error::ChunkError;
use bloxel::location::PackedXYZ32;
use bloxel::store::Run;

fn at(x: u8, y: u8, z: u8) -> PackedXYZ32 {
    PackedXYZ32::encode(x, y, z).unwrap()
}

fn stone() -> VoxelKind {
    VoxelKind::new(1, 10)
}

fn dirt() -> VoxelKind {
    VoxelKind::new(2, 3)
}

fn sorted(mut runs: Vec<Run>) -> Vec<Run> {
    runs.sort_by_key(|r| r.start.to_bits());
    runs
}

#[test]
fn stone_run_split_by_dirt() {
    let mut manager = ChunkManager::new();
    let mut chunk = GridChunk::new(&mut manager, IVec3::new(0, 0, 0)).unwrap();
    chunk.record_edit(DeltaEntry::insert(at(0, 0, 0), stone(), at(3, 0, 0)));
    chunk.record_edit(DeltaEntry::insert(at(1, 0, 0), dirt(), at(0, 0, 0)));
    assert_eq!(chunk.encode(), Ok(()));
    assert_eq!(chunk.pending().len(), 0);
    let runs = sorted(chunk.voxels().runs());
    assert_eq!(
        runs,
        vec![
            Run { start: at(0, 0, 0), kind: stone(), extent: at(0, 0, 0) },
            Run { start: at(1, 0, 0), kind: dirt(), extent: at(0, 0, 0) },
            Run { start: at(2, 0, 0), kind: stone(), extent: at(1, 0, 0) },
        ]
    );
    assert_eq!(chunk.voxel(0, 0, 0), Some(stone()));
    assert_eq!(chunk.voxel(1, 0, 0), Some(dirt()));
    assert_eq!(chunk.voxel(2, 0, 0), Some(stone()));
    assert_eq!(chunk.voxel(3, 0, 0), Some(stone()));
    assert_eq!(chunk.voxel(4, 0, 0), None);
    assert_eq!(chunk.voxel(0, 1, 0), None);
}

#[test]
fn encode_rejects_edit_outside_chunk() {
    let mut manager = ChunkManager::new();
    let mut chunk = GridChunk::new(&mut manager, IVec3::new(1, 2, 3)).unwrap();
    chunk.record_edit(DeltaEntry::insert(at(30, 0, 0), stone(), at(2, 0, 0)));
    assert_eq!(chunk.encode(), Err(ChunkError::CoordinateOutOfRange));
    assert_eq!(chunk.pending().len(), 1);
    assert_eq!(chunk.voxels().len(), 0);
}
