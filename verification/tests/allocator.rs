use bloxel::allocator::ChunkManager;
use bloxel::error::ChunkError;

#[test]
fn fresh_allocator_counts_up_from_zero() {
    let mut manager = ChunkManager::new();
    for expected in 0..1000u16 {
        assert_eq!(manager.allocate(), Ok(expected));
    }
    assert_eq!(manager.issued(), 1000);
    assert_eq!(manager.reclaimed(), 0);
}

#[test]
fn reclaimed_id_is_reused_before_a_new_one() {
    let mut manager = ChunkManager::new();
    for _ in 0..5 {
        manager.allocate().unwrap();
    }
    manager.deallocate(2);
    assert_eq!(manager.allocate(), Ok(2));
    assert_eq!(manager.allocate(), Ok(5));
}

#[test]
fn reclaimed_ids_come_back_last_in_first_out() {
    let mut manager = ChunkManager::new();
    for _ in 0..4 {
        manager.allocate().unwrap();
    }
    manager.deallocate(1);
    manager.deallocate(3);
    manager.deallocate(0);
    assert_eq!(manager.reclaimed(), 3);
    assert_eq!(manager.allocate(), Ok(0));
    assert_eq!(manager.allocate(), Ok(3));
    assert_eq!(manager.allocate(), Ok(1));
    assert_eq!(manager.allocate(), Ok(4));
}

#[test]
fn allocator_runs_out_when_the_counter_cannot_advance() {
    let mut manager = ChunkManager::new();
    for expected in 0..0xffffu16 {
        assert_eq!(manager.allocate(), Ok(expected));
    }
    assert_eq!(manager.issued(), 0xffff);
    assert_eq!(manager.allocate(), Err(ChunkError::IdSpaceExhausted));
    assert_eq!(manager.issued(), 0xffff);
    // A reclaimed identifier makes allocation possible again.
    manager.deallocate(7);
    assert_eq!(manager.allocate(), Ok(7));
    assert_eq!(manager.allocate(), Err(ChunkError::IdSpaceExhausted));
}
