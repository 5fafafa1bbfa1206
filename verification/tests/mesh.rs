use bevy::math::IVec3;
use bloxel::allocator::ChunkManager;
use bloxel::bitmap::Plane;
use bloxel::block::VoxelKind;
use bloxel::chunk::GridChunk;
use bloxel::delta::DeltaEntry;
use bloxel::greedy::Rect;
use bloxel::location::PackedXYZ32;
use bloxel::mesh::Quad;

fn loc(x: u8, y: u8, z: u8) -> PackedXYZ32 {
    PackedXYZ32::encode(x, y, z).unwrap()
}

fn chunk_with(edits: Vec<DeltaEntry>) -> GridChunk {
    let mut manager = ChunkManager::new();
    let mut chunk = GridChunk::new(&mut manager, IVec3::new(0, 0, 0)).unwrap();
    for edit in edits {
        chunk.record_edit(edit);
    }
    chunk
}

#[test]
fn isolated_block_has_six_quads() {
    let stone = VoxelKind::new(1, 10);
    // A solid block of 2 x 2 x 1 voxels at (4..=5, 6..=7, 8).
    let chunk = chunk_with(vec![DeltaEntry::insert(loc(4, 6, 8), stone, loc(1, 1, 0))]);
    let quads = chunk.build_mesh().unwrap();
    assert_eq!(quads.len(), 6);
    let expect = vec![
        // XY layers are slices of constant z: u = x, v = y, w = z.
        Quad { kind: stone, plane: Plane::XY, toward_high: false, rect: Rect { u: 4, v: 6, w: 8, du: 1, dv: 1 } },
        Quad { kind: stone, plane: Plane::XY, toward_high: true, rect: Rect { u: 4, v: 6, w: 8, du: 1, dv: 1 } },
        // YZ layers are slices of constant x: u = y, v = z, w = x.
        Quad { kind: stone, plane: Plane::YZ, toward_high: false, rect: Rect { u: 6, v: 8, w: 4, du: 1, dv: 0 } },
        Quad { kind: stone, plane: Plane::YZ, toward_high: true, rect: Rect { u: 6, v: 8, w: 5, du: 1, dv: 0 } },
        // XZ layers are slices of constant y: u = x, v = z, w = y.
        Quad { kind: stone, plane: Plane::XZ, toward_high: false, rect: Rect { u: 4, v: 8, w: 6, du: 1, dv: 0 } },
        Quad { kind: stone, plane: Plane::XZ, toward_high: true, rect: Rect { u: 4, v: 8, w: 7, du: 1, dv: 0 } },
    ];
    assert_eq!(quads, expect);
}

#[test]
fn block_next_to_solid_voxels_has_fewer_quads() {
    let stone = VoxelKind::new(1, 10);
    let dirt = VoxelKind::new(2, 3);
    // The same block, with a slab of dirt covering its whole +z face.
    let chunk = chunk_with(vec![
        DeltaEntry::insert(loc(4, 6, 8), stone, loc(1, 1, 0)),
        DeltaEntry::insert(loc(4, 6, 9), dirt, loc(1, 1, 0)),
    ]);
    let quads = chunk.build_mesh().unwrap();
    let of_stone: Vec<&Quad> = quads.iter().filter(|q| q.kind == stone).collect();
    let of_dirt: Vec<&Quad> = quads.iter().filter(|q| q.kind == dirt).collect();
    assert_eq!(of_stone.len(), 5);
    assert_eq!(of_dirt.len(), 5);
    assert!(!of_stone.iter().any(|q| q.plane == Plane::XY && q.toward_high));
    assert!(!of_dirt.iter().any(|q| q.plane == Plane::XY && !q.toward_high));
}

#[test]
fn mesh_of_empty_chunk_is_empty() {
    let chunk = chunk_with(vec![]);
    assert_eq!(chunk.build_mesh().unwrap(), vec![]);
}

#[test]
fn mesh_does_not_merge_edits() {
    let stone = VoxelKind::new(1, 10);
    let chunk = chunk_with(vec![DeltaEntry::insert(loc(0, 0, 0), stone, loc(0, 0, 0))]);
    let quads = chunk.build_mesh().unwrap();
    assert_eq!(quads.len(), 6);
    assert_eq!(chunk.pending().len(), 1);
    assert_eq!(chunk.voxels().len(), 0);
}
