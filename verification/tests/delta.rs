use bloxel::block::VoxelKind;
use bloxel::delta::{all_in_chunk, DeltaEntry, DeltaLog};
use bloxel::location::PackedXYZ32;

fn xyz(x: u8, y: u8, z: u8) -> PackedXYZ32 {
    PackedXYZ32::encode(x, y, z).unwrap()
}

#[test]
fn log_keeps_arrival_order() {
    let stone = VoxelKind::new(1, 10);
    let first = DeltaEntry::insert(xyz(0, 0, 0), stone, xyz(1, 1, 1));
    let second = DeltaEntry::delete(xyz(0, 0, 0), xyz(0, 0, 0));
    let third = DeltaEntry::insert(xyz(5, 5, 5), stone, xyz(0, 0, 0));
    let mut log = DeltaLog::new();
    assert!(log.is_empty());
    log.append(first);
    log.append(second);
    log.append(third);
    assert_eq!(log.len(), 3);
    assert_eq!(log.entries(), &vec![first, second, third]);
    assert_eq!(log.drain(), vec![first, second, third]);
    assert!(log.is_empty());
    assert_eq!(log.drain(), vec![]);
}

#[test]
fn entry_constructors_set_the_kind() {
    let stone = VoxelKind::new(1, 10);
    let insert = DeltaEntry::insert(xyz(1, 2, 3), stone, xyz(4, 5, 6));
    assert_eq!(insert.location, xyz(1, 2, 3));
    assert_eq!(insert.kind, Some(stone));
    assert_eq!(insert.extent, xyz(4, 5, 6));
    let delete = DeltaEntry::delete(xyz(1, 2, 3), xyz(4, 5, 6));
    assert_eq!(delete.kind, None);
}

#[test]
fn entry_fits_when_its_far_corner_is_in_the_chunk() {
    let stone = VoxelKind::new(1, 10);
    assert!(DeltaEntry::insert(xyz(0, 0, 0), stone, xyz(31, 31, 31)).is_in_chunk());
    assert!(DeltaEntry::insert(xyz(31, 31, 31), stone, xyz(0, 0, 0)).is_in_chunk());
    assert!(!DeltaEntry::insert(xyz(1, 0, 0), stone, xyz(31, 0, 0)).is_in_chunk());
    assert!(!DeltaEntry::delete(xyz(0, 20, 0), xyz(0, 12, 0)).is_in_chunk());
    assert!(!DeltaEntry::delete(xyz(0, 0, 31), xyz(0, 0, 1)).is_in_chunk());
    let good = DeltaEntry::delete(xyz(0, 0, 0), xyz(0, 0, 0));
    let bad = DeltaEntry::delete(xyz(31, 0, 0), xyz(1, 0, 0));
    assert!(all_in_chunk(&vec![]));
    assert!(all_in_chunk(&vec![good, good]));
    assert!(!all_in_chunk(&vec![good, bad, good]));
}
