use bloxel::error::ChunkError;
use bloxel::location::PackedXYZ32;

#[test]
fn encode_then_decode_gives_the_coordinate_back() {
    for x in 0..32u8 {
        for y in 0..32u8 {
            for z in 0..32u8 {
                let packed = PackedXYZ32::encode(x, y, z).unwrap();
                assert_eq!(packed.decode(), (x, y, z));
                assert_eq!((packed.x(), packed.y(), packed.z()), (x, y, z));
            }
        }
    }
}

#[test]
fn encode_packs_five_bits_per_field() {
    let packed = PackedXYZ32::encode(1, 2, 3).unwrap();
    assert_eq!(packed.to_bits(), (1 << 10) | (2 << 5) | 3);
    assert_eq!(PackedXYZ32::encode(31, 31, 31).unwrap().to_bits(), 0x7fff);
    assert_eq!(PackedXYZ32::encode(0, 0, 0).unwrap().to_bits(), 0);
    assert_eq!(PackedXYZ32::zero().to_bits(), 0);
}

#[test]
fn encode_rejects_coordinates_out_of_range() {
    assert_eq!(PackedXYZ32::encode(32, 0, 0), Err(ChunkError::CoordinateOutOfRange));
    assert_eq!(PackedXYZ32::encode(0, 32, 0), Err(ChunkError::CoordinateOutOfRange));
    assert_eq!(PackedXYZ32::encode(0, 0, 32), Err(ChunkError::CoordinateOutOfRange));
    assert_eq!(PackedXYZ32::encode(255, 255, 255), Err(ChunkError::CoordinateOutOfRange));
    // 33 would wrap to 1 if the field were masked.
    assert_eq!(PackedXYZ32::encode(33, 1, 1), Err(ChunkError::CoordinateOutOfRange));
}

#[test]
fn every_field_out_of_range_is_rejected() {
    for bad in 32..=255u8 {
        assert!(PackedXYZ32::encode(bad, 0, 0).is_err());
        assert!(PackedXYZ32::encode(0, bad, 0).is_err());
        assert!(PackedXYZ32::encode(0, 0, bad).is_err());
    }
}

#[test]
fn from_bits_round_trips_and_rejects_bit_15() {
    for raw in 0..0x8000u16 {
        let packed = PackedXYZ32::from_bits(raw).unwrap();
        assert_eq!(packed.to_bits(), raw);
        let (x, y, z) = packed.decode();
        assert_eq!(PackedXYZ32::encode(x, y, z).unwrap(), packed);
    }
    assert_eq!(PackedXYZ32::from_bits(0x8000), Err(ChunkError::CoordinateOutOfRange));
    assert_eq!(PackedXYZ32::from_bits(0xffff), Err(ChunkError::CoordinateOutOfRange));
}

#[test]
fn setters_replace_one_field() {
    let mut packed = PackedXYZ32::encode(1, 2, 3).unwrap();
    assert_eq!(packed.set_x(31), Ok(()));
    assert_eq!(packed.decode(), (31, 2, 3));
    assert_eq!(packed.set_y(0), Ok(()));
    assert_eq!(packed.decode(), (31, 0, 3));
    assert_eq!(packed.set_z(17), Ok(()));
    assert_eq!(packed.decode(), (31, 0, 17));
}

#[test]
fn setters_reject_out_of_range_and_change_nothing() {
    let mut packed = PackedXYZ32::encode(1, 2, 3).unwrap();
    assert_eq!(packed.set_x(32), Err(ChunkError::CoordinateOutOfRange));
    assert_eq!(packed.set_y(40), Err(ChunkError::CoordinateOutOfRange));
    assert_eq!(packed.set_z(255), Err(ChunkError::CoordinateOutOfRange));
    assert_eq!(packed.decode(), (1, 2, 3));
}

#[test]
fn set_location_replaces_all_or_nothing() {
    let mut packed = PackedXYZ32::encode(1, 2, 3).unwrap();
    assert_eq!(packed.set_location(4, 5, 6), Ok(()));
    assert_eq!(packed.decode(), (4, 5, 6));
    assert_eq!(packed.set_location(7, 8, 32), Err(ChunkError::CoordinateOutOfRange));
    assert_eq!(packed.decode(), (4, 5, 6));
}

#[test]
fn packed_locations_order_by_x_then_y_then_z() {
    let a = PackedXYZ32::encode(0, 31, 31).unwrap();
    let b = PackedXYZ32::encode(1, 0, 0).unwrap();
    let c = PackedXYZ32::encode(1, 0, 1).unwrap();
    assert!(a < b && b < c);
}
