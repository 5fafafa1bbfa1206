use bevy::math::IVec3;
use bloxel::allocator::ChunkManager;
use bloxel::bitmap::Plane;
use bloxel::block::{GridObjectKind, GridVoxel, GridVoxelUnmeshable, HitPoints, VoxelKind};
use bloxel::chunk::GridChunk;
use bloxel::delta::DeltaEntry;
use bloxel::error::ChunkError;
use bloxel::location::PackedXYZ32;
use bloxel::merge::merge;
use bloxel::projector::project;
use bloxel::store::{Run, VoxelRunStore};

fn place(x: u8, y: u8, z: u8) -> PackedXYZ32 {
    PackedXYZ32::encode(x, y, z).unwrap()
}

fn granite() -> VoxelKind {
    VoxelKind::new(7, 200)
}

fn clay() -> VoxelKind {
    VoxelKind::new(8, 20)
}

#[test]
fn new_chunk_takes_an_id_and_is_empty() {
    let mut manager = ChunkManager::new();
    let first = GridChunk::new(&mut manager, IVec3::new(1, -2, 3)).unwrap();
    let second = GridChunk::new(&mut manager, IVec3::new(4, 5, 6)).unwrap();
    assert_eq!(first.id(), 0);
    assert_eq!(second.id(), 1);
    assert_eq!(first.location(), IVec3::new(1, -2, 3));
    assert_eq!(second.location(), IVec3::new(4, 5, 6));
    assert_eq!(first.voxels().len(), 0);
    assert_eq!(first.pending().len(), 0);
    assert_eq!(first.voxel(0, 0, 0), None);
    assert_eq!(first.prop_at(place(0, 0, 0)), None);
}

#[test]
fn dropped_chunk_gives_its_id_back() {
    let mut manager = ChunkManager::new();
    let first = GridChunk::new(&mut manager, IVec3::new(0, 0, 0)).unwrap();
    let _second = GridChunk::new(&mut manager, IVec3::new(1, 0, 0)).unwrap();
    first.drop(&mut manager);
    assert_eq!(manager.reclaimed(), 1);
    let third = GridChunk::new(&mut manager, IVec3::new(2, 0, 0)).unwrap();
    assert_eq!(third.id(), 0);
    let fourth = GridChunk::new(&mut manager, IVec3::new(3, 0, 0)).unwrap();
    assert_eq!(fourth.id(), 2);
}

#[test]
fn new_chunk_fails_when_ids_run_out() {
    let mut manager = ChunkManager::new();
    for _ in 0..0xffffu32 {
        manager.allocate().unwrap();
    }
    assert!(matches!(
        GridChunk::new(&mut manager, IVec3::new(0, 0, 0)),
        Err(ChunkError::IdSpaceExhausted)
    ));
}

#[test]
fn record_edit_changes_the_content_but_not_the_store() {
    let mut manager = ChunkManager::new();
    let mut chunk = GridChunk::new(&mut manager, IVec3::new(0, 0, 0)).unwrap();
    let edit = DeltaEntry::insert(place(1, 1, 1), granite(), place(2, 0, 0));
    chunk.record_edit(edit);
    assert_eq!(chunk.pending().entries(), &vec![edit]);
    assert_eq!(chunk.voxels().len(), 0);
    assert_eq!(chunk.voxel(1, 1, 1), Some(granite()));
    assert_eq!(chunk.voxel(3, 1, 1), Some(granite()));
    assert_eq!(chunk.voxel(4, 1, 1), None);
}

#[test]
fn encode_without_edits_leaves_the_store_unchanged() {
    let mut store = VoxelRunStore::new();
    // Two runs that a greedy pass would have stored as one.
    store.insert(place(0, 0, 0), granite(), 2, 1, 1).unwrap();
    store.insert(place(2, 0, 0), granite(), 2, 1, 1).unwrap();
    let before = store.runs();
    let merged = merge(&store, &vec![]).unwrap();
    assert_eq!(
        merged.runs(),
        vec![Run { start: place(0, 0, 0), kind: granite(), extent: place(3, 0, 0) }]
    );
    // The chunk does not even run the merge when nothing is pending.
    let mut manager = ChunkManager::new();
    let mut chunk = GridChunk::new(&mut manager, IVec3::new(0, 0, 0)).unwrap();
    chunk.record_edit(DeltaEntry::insert(place(0, 0, 0), granite(), place(3, 3, 0)));
    chunk.record_edit(DeltaEntry::delete(place(1, 1, 0), place(0, 0, 0)));
    assert_eq!(chunk.encode(), Ok(()));
    let stored = chunk.voxels().runs();
    assert_eq!(chunk.encode(), Ok(()));
    assert_eq!(chunk.voxels().runs(), stored);
    assert_eq!(chunk.encode(), Ok(()));
    assert_eq!(chunk.voxels().runs(), stored);
    assert_eq!(before.len(), 2);
}

#[test]
fn later_edit_wins_over_earlier_edit() {
    let mut manager = ChunkManager::new();
    let mut chunk = GridChunk::new(&mut manager, IVec3::new(0, 0, 0)).unwrap();
    chunk.record_edit(DeltaEntry::insert(place(5, 5, 5), granite(), place(0, 0, 0)));
    chunk.record_edit(DeltaEntry::insert(place(5, 5, 5), clay(), place(0, 0, 0)));
    assert_eq!(chunk.voxel(5, 5, 5), Some(clay()));
    assert_eq!(chunk.encode(), Ok(()));
    assert_eq!(chunk.voxel(5, 5, 5), Some(clay()));
    assert_eq!(
        chunk.voxels().runs(),
        vec![Run { start: place(5, 5, 5), kind: clay(), extent: place(0, 0, 0) }]
    );
    // And the other way round.
    chunk.record_edit(DeltaEntry::insert(place(5, 5, 5), clay(), place(0, 0, 0)));
    chunk.record_edit(DeltaEntry::insert(place(5, 5, 5), granite(), place(0, 0, 0)));
    assert_eq!(chunk.encode(), Ok(()));
    assert_eq!(
        chunk.voxels().runs(),
        vec![Run { start: place(5, 5, 5), kind: granite(), extent: place(0, 0, 0) }]
    );
}

#[test]
fn later_edit_wins_over_stored_runs() {
    let mut manager = ChunkManager::new();
    let mut chunk = GridChunk::new(&mut manager, IVec3::new(0, 0, 0)).unwrap();
    chunk.record_edit(DeltaEntry::insert(place(0, 0, 0), granite(), place(3, 3, 3)));
    assert_eq!(chunk.encode(), Ok(()));
    chunk.record_edit(DeltaEntry::insert(place(2, 2, 2), clay(), place(3, 3, 3)));
    assert_eq!(chunk.encode(), Ok(()));
    for x in 0..8u8 {
        for y in 0..8u8 {
            for z in 0..8u8 {
                let in_clay = (2..=5).contains(&x) && (2..=5).contains(&y) && (2..=5).contains(&z);
                let in_granite = x <= 3 && y <= 3 && z <= 3;
                let expected = if in_clay {
                    Some(clay())
                } else if in_granite {
                    Some(granite())
                } else {
                    None
                };
                assert_eq!(chunk.voxel(x, y, z), expected);
                assert_eq!(chunk.voxels().lookup(x, y, z), expected);
            }
        }
    }
}

#[test]
fn deletion_after_insertion_removes_the_voxel_everywhere() {
    let mut manager = ChunkManager::new();
    let mut chunk = GridChunk::new(&mut manager, IVec3::new(0, 0, 0)).unwrap();
    chunk.record_edit(DeltaEntry::insert(place(3, 4, 5), granite(), place(2, 2, 2)));
    chunk.record_edit(DeltaEntry::delete(place(4, 5, 6), place(0, 0, 0)));
    assert_eq!(chunk.voxel(4, 5, 6), None);
    for filter in [Some(granite()), None] {
        let xy = project(chunk.voxels(), chunk.pending().entries(), filter, Plane::XY).unwrap();
        let yz = project(chunk.voxels(), chunk.pending().entries(), filter, Plane::YZ).unwrap();
        let xz = project(chunk.voxels(), chunk.pending().entries(), filter, Plane::XZ).unwrap();
        assert!(!xy.get(4, 5, 6));
        assert!(!yz.get(5, 6, 4));
        assert!(!xz.get(4, 6, 5));
        assert!(xy.get(3, 4, 5));
        assert!(yz.get(4, 5, 3));
        assert!(xz.get(3, 5, 4));
    }
    assert_eq!(chunk.encode(), Ok(()));
    assert_eq!(chunk.voxel(4, 5, 6), None);
    assert_eq!(chunk.voxels().lookup(4, 5, 6), None);
    assert_eq!(chunk.voxels().lookup(3, 4, 5), Some(granite()));
    for run in chunk.voxels().runs() {
        assert!(!bloxel::store::run_holds(&run, 4, 5, 6));
    }
    // 27 voxels minus the one that was carved out.
    let mut count = 0;
    for x in 0..32u8 {
        for y in 0..32u8 {
            for z in 0..32u8 {
                if chunk.voxel(x, y, z).is_some() {
                    count += 1;
                }
            }
        }
    }
    assert_eq!(count, 26);
}

#[test]
fn deleting_everything_empties_the_store() {
    let mut manager = ChunkManager::new();
    let mut chunk = GridChunk::new(&mut manager, IVec3::new(0, 0, 0)).unwrap();
    chunk.record_edit(DeltaEntry::insert(place(0, 0, 0), granite(), place(31, 31, 31)));
    assert_eq!(chunk.encode(), Ok(()));
    assert_eq!(chunk.voxels().len(), 32);
    chunk.record_edit(DeltaEntry::delete(place(0, 0, 0), place(31, 31, 31)));
    assert_eq!(chunk.encode(), Ok(()));
    assert_eq!(chunk.voxels().len(), 0);
}

#[test]
fn persisting_needs_an_encoded_chunk() {
    let mut manager = ChunkManager::new();
    let mut chunk = GridChunk::new(&mut manager, IVec3::new(0, 0, 0)).unwrap();
    assert_eq!(chunk.runs_to_persist(), Ok(vec![]));
    chunk.record_edit(DeltaEntry::insert(place(0, 0, 0), granite(), place(0, 0, 0)));
    assert_eq!(chunk.runs_to_persist(), Err(ChunkError::StaleEncode));
    assert_eq!(chunk.encode(), Ok(()));
    assert_eq!(
        chunk.runs_to_persist(),
        Ok(vec![Run { start: place(0, 0, 0), kind: granite(), extent: place(0, 0, 0) }])
    );
}

#[test]
fn props_are_kept_apart_from_voxels() {
    let mut manager = ChunkManager::new();
    let mut chunk = GridChunk::new(&mut manager, IVec3::new(0, 0, 0)).unwrap();
    let crate_kind = GridObjectKind { hardness: 4 };
    let barrel = GridObjectKind { hardness: 9 };
    assert_eq!(chunk.place_prop(place(1, 2, 3), crate_kind), None);
    assert_eq!(chunk.place_prop(place(1, 2, 3), barrel), Some(crate_kind));
    assert_eq!(chunk.prop_at(place(1, 2, 3)), Some(barrel));
    chunk.record_edit(DeltaEntry::delete(place(0, 0, 0), place(31, 31, 31)));
    assert_eq!(chunk.encode(), Ok(()));
    assert_eq!(chunk.prop_at(place(1, 2, 3)), Some(barrel));
    assert_eq!(chunk.voxel(1, 2, 3), None);
    assert_eq!(chunk.remove_prop(place(1, 2, 3)), Some(barrel));
    assert_eq!(chunk.remove_prop(place(1, 2, 3)), None);
    assert_eq!(chunk.prop_at(place(1, 2, 3)), None);
}

#[test]
fn block_types_have_their_defaults() {
    assert_eq!(VoxelKind::default(), VoxelKind { id: 0, hardness: 0 });
    assert_eq!(VoxelKind::new(3, 4), VoxelKind { id: 3, hardness: 4 });
    assert_eq!(GridObjectKind::default(), GridObjectKind { hardness: 0 });
    assert_eq!(HitPoints(12).0, 12);
    assert_eq!(GridVoxel, GridVoxel);
    assert_eq!(GridVoxelUnmeshable, GridVoxelUnmeshable);
    assert!(VoxelKind::new(1, 9) < VoxelKind::new(2, 0));
}

#[test]
fn health_table_holds_only_damaged_objects() {
    let mut table = bloxel::health::HealthTable::new();
    let here = place(3, 3, 3);
    let there = place(4, 4, 4);
    assert_eq!(table.hit_points(here, 100), 100);
    assert_eq!(table.len(), 0);
    assert_eq!(table.damage(here, 30, 100), 70);
    assert_eq!(table.len(), 1);
    assert_eq!(table.hit_points(here, 100), 70);
    assert_eq!(table.hit_points(there, 55), 55);
    assert_eq!(table.heal(here, 10, 100), 80);
    assert_eq!(table.len(), 1);
    assert_eq!(table.heal(here, 500, 100), 100);
    assert_eq!(table.len(), 0);
    assert_eq!(table.damage(there, 60, 55), 0);
    assert_eq!(table.hit_points(there, 55), 0);
    assert_eq!(table.len(), 1);
    table.set_hit_points(there, 55, 55);
    assert_eq!(table.len(), 0);
    table.set_hit_points(there, 1, 55);
    assert_eq!(table.hit_points(there, 55), 1);
    assert_eq!(table.heal(there, 65535, 65535), 65535);
}
