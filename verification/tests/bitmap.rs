use bloxel::bitmap::{build_bitmap, Bitmap, Plane};
use bloxel::bits::{lowest_set, ones_from, span_mask, test_bit};
use bloxel::block::VoxelKind;
use bloxel::delta::DeltaEntry;
use bloxel::error::ChunkError;
use bloxel::greedy::{extract_rectangles, Rect};
use bloxel::location::PackedXYZ32;
use bloxel::merge::{encode_kind, kinds_present, runs_match};
use bloxel::mesh::face_layers;
use bloxel::projector::{kind_passes, project};
use bloxel::store::{Run, VoxelRunStore};

fn vox(x: u8, y: u8, z: u8) -> PackedXYZ32 {
    PackedXYZ32::encode(x, y, z).unwrap()
}

#[test]
fn span_mask_sets_the_bits_of_the_span() {
    assert_eq!(span_mask(0, 0), 0b1);
    assert_eq!(span_mask(3, 5), 0b111000);
    assert_eq!(span_mask(0, 31), u32::MAX);
    assert_eq!(span_mask(31, 31), 0x8000_0000);
    assert_eq!(span_mask(1, 31), 0xffff_fffe);
}

#[test]
fn word_queries() {
    assert!(test_bit(0b100, 2));
    assert!(!test_bit(0b100, 1));
    assert_eq!(lowest_set(0b1011000), 3);
    assert_eq!(lowest_set(0x8000_0000), 31);
    assert_eq!(ones_from(0b1011000, 3), 2);
    assert_eq!(ones_from(0b1011000, 5), 0);
    assert_eq!(ones_from(u32::MAX, 0), 32);
    assert_eq!(ones_from(u32::MAX, 31), 1);
    assert_eq!(ones_from(0xf000_0000, 28), 4);
}

#[test]
fn build_bitmap_draws_a_box_along_each_plane() {
    // The box x in 1..=2, y in 3..=5, z = 7.
    let (start, extent) = (vox(1, 3, 7), vox(1, 2, 0));
    let mut xy = Bitmap::new();
    assert_eq!(build_bitmap(&mut xy, start, extent, Plane::XY, false), Ok(()));
    let mut yz = Bitmap::new();
    assert_eq!(build_bitmap(&mut yz, start, extent, Plane::YZ, false), Ok(()));
    let mut xz = Bitmap::new();
    assert_eq!(build_bitmap(&mut xz, start, extent, Plane::XZ, false), Ok(()));
    for x in 0..32u8 {
        for y in 0..32u8 {
            for z in 0..32u8 {
                let inside = (1..=2).contains(&x) && (3..=5).contains(&y) && z == 7;
                assert_eq!(xy.get(x, y, z), inside);
                assert_eq!(yz.get(y, z, x), inside);
                assert_eq!(xz.get(x, z, y), inside);
            }
        }
    }
    // Row v = 3 of layer w = 7 of the XY bitmap holds bits 1 and 2.
    assert_eq!(xy.get_row(3, 7), 0b110);
    assert_eq!(xy.get_row(6, 7), 0);
    // Row v = 7 (z) of layer w = 1 (x) of the YZ bitmap holds bits 3..=5 (y).
    assert_eq!(yz.get_row(7, 1), 0b111000);
}

#[test]
fn build_bitmap_clears_a_box() {
    let mut uv = Bitmap::new();
    build_bitmap(&mut uv, vox(0, 0, 0), vox(7, 0, 0), Plane::XY, false).unwrap();
    assert_eq!(uv.get_row(0, 0), 0xff);
    build_bitmap(&mut uv, vox(2, 0, 0), vox(3, 0, 0), Plane::XY, true).unwrap();
    assert_eq!(uv.get_row(0, 0), 0b1100_0011);
}

#[test]
fn build_bitmap_rejects_a_box_that_leaves_the_chunk() {
    let mut uv = Bitmap::new();
    build_bitmap(&mut uv, vox(0, 0, 0), vox(0, 0, 0), Plane::XY, false).unwrap();
    assert_eq!(
        build_bitmap(&mut uv, vox(31, 0, 0), vox(1, 0, 0), Plane::XY, false),
        Err(ChunkError::CoordinateOutOfRange)
    );
    assert_eq!(
        build_bitmap(&mut uv, vox(0, 16, 0), vox(0, 16, 0), Plane::YZ, true),
        Err(ChunkError::CoordinateOutOfRange)
    );
    assert_eq!(uv.get_row(0, 0), 1);
    assert_eq!(uv.get_row(16, 0), 0);
}

#[test]
fn bitmap_get_is_false_outside_the_grid() {
    let mut uv = Bitmap::new();
    build_bitmap(&mut uv, vox(0, 0, 0), vox(31, 31, 31), Plane::XY, false).unwrap();
    assert!(uv.get(31, 31, 31));
    assert!(!uv.get(32, 0, 0));
    assert!(!uv.get(0, 32, 0));
    assert!(!uv.get(0, 0, 32));
    let copy = uv.duplicate();
    assert_eq!(copy.get_row(5, 5), u32::MAX);
}

#[test]
fn extraction_grows_along_the_row_then_across_rows() {
    let mut uv = Bitmap::new();
    // Layer 0:  row 0: cells 1..=3,  row 1: cells 0..=3,  row 2: cells 1..=4
    uv.set_row(0, 0, 0b01110);
    uv.set_row(1, 0, 0b01111);
    uv.set_row(2, 0, 0b11110);
    // Layer 5: one cell.
    uv.set_row(9, 5, 1 << 31);
    let rects = extract_rectangles(&uv);
    assert_eq!(
        rects,
        vec![
            Rect { u: 1, v: 0, w: 0, du: 2, dv: 2 },
            Rect { u: 0, v: 1, w: 0, du: 0, dv: 0 },
            Rect { u: 4, v: 2, w: 0, du: 0, dv: 0 },
            Rect { u: 31, v: 9, w: 5, du: 0, dv: 0 },
        ]
    );
}

#[test]
fn extraction_of_an_empty_and_of_a_full_bitmap() {
    assert_eq!(extract_rectangles(&Bitmap::new()), vec![]);
    let mut full = Bitmap::new();
    build_bitmap(&mut full, vox(0, 0, 0), vox(31, 31, 31), Plane::XY, false).unwrap();
    let rects = extract_rectangles(&full);
    assert_eq!(rects.len(), 32);
    for (w, rect) in rects.iter().enumerate() {
        assert_eq!(*rect, Rect { u: 0, v: 0, w: w as u8, du: 31, dv: 31 });
    }
}

#[test]
fn projection_replays_edits_over_stored_runs() {
    let stone = VoxelKind::new(1, 10);
    let dirt = VoxelKind::new(2, 3);
    let mut store = VoxelRunStore::new();
    store.insert(vox(0, 0, 0), stone, 8, 1, 1).unwrap();
    let deltas = vec![
        DeltaEntry::insert(vox(2, 0, 0), dirt, vox(1, 0, 0)),
        DeltaEntry::delete(vox(6, 0, 0), vox(3, 0, 0)),
        DeltaEntry::insert(vox(9, 0, 0), stone, vox(0, 0, 0)),
    ];
    let of_stone = project(&store, &deltas, Some(stone), Plane::XY).unwrap();
    let of_dirt = project(&store, &deltas, Some(dirt), Plane::XY).unwrap();
    let solid = project(&store, &deltas, None, Plane::XY).unwrap();
    assert_eq!(of_stone.get_row(0, 0), 0b10_0011_0011);
    assert_eq!(of_dirt.get_row(0, 0), 0b00_0000_1100);
    assert_eq!(solid.get_row(0, 0), 0b10_0011_1111);
    assert!(kind_passes(None, stone));
    assert!(kind_passes(Some(stone), stone));
    assert!(!kind_passes(Some(dirt), stone));
}

#[test]
fn projection_fails_on_an_edit_outside_the_chunk() {
    let store = VoxelRunStore::new();
    let deltas = vec![DeltaEntry::delete(vox(31, 31, 31), vox(0, 0, 1))];
    assert!(matches!(
        project(&store, &deltas, None, Plane::XY),
        Err(ChunkError::CoordinateOutOfRange)
    ));
    let stone = VoxelKind::new(1, 10);
    assert_eq!(encode_kind(&stone, &store, &deltas), Err(ChunkError::CoordinateOutOfRange));
}

#[test]
fn decoded_runs_agree_with_every_plane() {
    let stone = VoxelKind::new(1, 10);
    let dirt = VoxelKind::new(2, 3);
    let mut store = VoxelRunStore::new();
    store.insert(vox(0, 0, 0), stone, 8, 8, 8).unwrap();
    let deltas = vec![
        DeltaEntry::insert(vox(2, 2, 2), dirt, vox(3, 3, 3)),
        DeltaEntry::delete(vox(0, 0, 0), vox(1, 7, 0)),
        DeltaEntry::insert(vox(20, 20, 20), stone, vox(0, 5, 0)),
    ];
    let runs = encode_kind(&stone, &store, &deltas).unwrap();
    for plane in [Plane::XY, Plane::YZ, Plane::XZ] {
        let bitmap = project(&store, &deltas, Some(stone), plane).unwrap();
        assert!(runs_match(&runs, &bitmap, plane));
        let other = project(&store, &deltas, Some(dirt), plane).unwrap();
        assert!(!runs_match(&runs, &other, plane));
    }
    let yz = project(&store, &deltas, Some(stone), Plane::YZ).unwrap();
    // Read along the wrong plane, the same bitmap does not match.
    assert!(!runs_match(&runs, &yz, Plane::XY));
    // A run that leaves the chunk matches nothing.
    let stray = vec![Run { start: vox(31, 0, 0), kind: stone, extent: vox(1, 0, 0) }];
    assert!(!runs_match(&stray, &Bitmap::new(), Plane::XY));
    assert!(runs_match(&vec![], &Bitmap::new(), Plane::XZ));
}

#[test]
fn kinds_are_listed_once_in_order_of_appearance() {
    let stone = VoxelKind::new(1, 10);
    let dirt = VoxelKind::new(2, 3);
    let sand = VoxelKind::new(3, 1);
    let runs = vec![
        Run { start: vox(0, 0, 0), kind: dirt, extent: vox(0, 0, 0) },
        Run { start: vox(1, 0, 0), kind: dirt, extent: vox(0, 0, 0) },
    ];
    let deltas = vec![
        DeltaEntry::delete(vox(0, 0, 0), vox(0, 0, 0)),
        DeltaEntry::insert(vox(0, 0, 0), stone, vox(0, 0, 0)),
        DeltaEntry::insert(vox(0, 0, 0), dirt, vox(0, 0, 0)),
        DeltaEntry::insert(vox(0, 0, 0), sand, vox(0, 0, 0)),
        DeltaEntry::insert(vox(0, 0, 0), stone, vox(0, 0, 0)),
    ];
    assert_eq!(kinds_present(&runs, &deltas), vec![dirt, stone, sand]);
    assert_eq!(kinds_present(&vec![], &vec![]), vec![]);
}

#[test]
fn faces_are_where_occupancy_changes_between_layers() {
    let mut solid = Bitmap::new();
    // Cell 0 is solid in layers 3 and 4, cell 1 in layer 4 only.
    solid.set_row(0, 3, 0b01);
    solid.set_row(0, 4, 0b11);
    let low = face_layers(&solid, &solid, false);
    let high = face_layers(&solid, &solid, true);
    assert_eq!(low.get_row(0, 3), 0b01);
    assert_eq!(low.get_row(0, 4), 0b10);
    assert_eq!(high.get_row(0, 3), 0b00);
    assert_eq!(high.get_row(0, 4), 0b11);
    // The first and the last layer face the outside of the chunk.
    let mut edge = Bitmap::new();
    edge.set_row(2, 0, 0b100);
    edge.set_row(2, 31, 0b100);
    assert_eq!(face_layers(&edge, &edge, false).get_row(2, 0), 0b100);
    assert_eq!(face_layers(&edge, &edge, true).get_row(2, 31), 0b100);
}
