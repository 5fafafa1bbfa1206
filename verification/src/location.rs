//! Packing of a chunk-local coordinate into one 16-bit integer.
//!
//! A chunk is a cube of 32 voxels per edge, so each of `x`, `y` and `z` takes
//! five bits. `x` occupies bits 10..15, `y` bits 5..10 and `z` bits 0..5; bit 15
//! is always clear. The same layout carries run extents, where each field is
//! the run's length along that axis minus one.

use vstd::prelude::*;
use crate::error::ChunkError;

verus! {

/// Number of voxels along each edge of a chunk.
pub const CHUNK_EDGE: u8 = 32;

/// A position in three-dimensional integer space, as used in specifications.
pub struct Voxel {
    pub x: int,
    pub y: int,
    pub z: int,
}

impl Voxel {
    /// Whether the position lies inside a chunk.
    pub open spec fn in_chunk(self) -> bool {
        0 <= self.x < 32 && 0 <= self.y < 32 && 0 <= self.z < 32
    }
}

/// The integer that packs `(x, y, z)`.
pub open spec fn pack(p: Voxel) -> int {
    p.x * 1024 + p.y * 32 + p.z
}

/// The coordinate that a packed integer stands for.
pub open spec fn unpack(raw: int) -> Voxel {
    Voxel { x: (raw / 1024) % 32, y: (raw / 32) % 32, z: raw % 32 }
}

/// A chunk-local coordinate, or a run extent, packed into 15 bits.
#[derive(Clone, Copy, Debug, PartialEq, Eq, Structural, PartialOrd, Ord, Hash)]
pub struct PackedXYZ32(u16);

impl View for PackedXYZ32 {
    type V = Voxel;

    closed spec fn view(&self) -> Voxel {
        unpack(self.0 as int)
    }
}

impl PackedXYZ32 {
    /// The packed integer itself.
    pub closed spec fn bits(self) -> u16 {
        self.0
    }

    /// Bit 15 is clear, so the value is the packing of its own coordinate.
    #[verifier::type_invariant]
    pub closed spec fn wf(self) -> bool {
        self.0 < 0x8000
    }

    /// Packs `(x, y, z)`; refuses any coordinate outside `0..32`.
    pub fn encode(x: u8, y: u8, z: u8) -> (r: Result<PackedXYZ32, ChunkError>)
        ensures
            r is Ok <==> x < 32 && y < 32 && z < 32,
            r is Ok ==> r->Ok_0.wf() && r->Ok_0@ == (Voxel { x: x as int, y: y as int, z: z as int }),
            r is Err ==> r->Err_0 == ChunkError::CoordinateOutOfRange,
    {
        if x >= CHUNK_EDGE || y >= CHUNK_EDGE || z >= CHUNK_EDGE {
            return Err(ChunkError::CoordinateOutOfRange);
        }
        let raw: u16 = ((x as u16) << 10) | ((y as u16) << 5) | (z as u16);
        assert(raw < 0x8000 && (raw / 1024) % 32 == x && (raw / 32) % 32 == y && raw % 32 == z)
            by (bit_vector)
            requires
                x < 32,
                y < 32,
                z < 32,
                raw == ((x as u16) << 10) | ((y as u16) << 5) | (z as u16),
        ;
        Ok(PackedXYZ32(raw))
    }

    /// Unpacks the coordinate as `(x, y, z)`.
    pub fn decode(&self) -> (r: (u8, u8, u8))
        ensures
            r.0 == self@.x,
            r.1 == self@.y,
            r.2 == self@.z,
            r.0 < 32 && r.1 < 32 && r.2 < 32,
    {
        (self.x(), self.y(), self.z())
    }

    /// The origin `(0, 0, 0)`, which is also the extent of a single voxel.
    pub fn zero() -> (r: PackedXYZ32)
        ensures
            r.wf(),
            r@ == (Voxel { x: 0, y: 0, z: 0 }),
            r.bits() == 0,
    {
        PackedXYZ32(0)
    }

    /// Reads a packed integer; refuses one with bit 15 set.
    pub fn from_bits(raw: u16) -> (r: Result<PackedXYZ32, ChunkError>)
        ensures
            r is Ok <==> raw < 0x8000,
            r is Ok ==> r->Ok_0.wf() && r->Ok_0.bits() == raw && r->Ok_0@ == unpack(raw as int),
            r is Err ==> r->Err_0 == ChunkError::CoordinateOutOfRange,
    {
        if raw >= 0x8000 {
            Err(ChunkError::CoordinateOutOfRange)
        } else {
            Ok(PackedXYZ32(raw))
        }
    }

    /// The packed integer, which orders and identifies the coordinate.
    pub fn to_bits(&self) -> (raw: u16)
        ensures
            raw == self.bits(),
            raw == pack(self@),
            raw < 0x8000,
            self.wf(),
    {
        proof {
            use_type_invariant(self);
        }
        self.0
    }

    /// The `x` field.
    pub fn x(&self) -> (x: u8)
        ensures
            x == self@.x,
            x < 32,
    {
        let raw: u16 = self.0;
        let x: u16 = (raw >> 10) & 0b1_1111;
        assert(x == (raw / 1024) % 32 && x < 32) by (bit_vector)
            requires
                x == (raw >> 10) & 0b1_1111,
        ;
        x as u8
    }

    /// The `y` field.
    pub fn y(&self) -> (y: u8)
        ensures
            y == self@.y,
            y < 32,
    {
        let raw: u16 = self.0;
        let y: u16 = (raw >> 5) & 0b1_1111;
        assert(y == (raw / 32) % 32 && y < 32) by (bit_vector)
            requires
                y == (raw >> 5) & 0b1_1111,
        ;
        y as u8
    }

    /// The `z` field.
    pub fn z(&self) -> (z: u8)
        ensures
            z == self@.z,
            z < 32,
    {
        let raw: u16 = self.0;
        let z: u16 = raw & 0b1_1111;
        assert(z == raw % 32 && z < 32) by (bit_vector)
            requires
                z == raw & 0b1_1111,
        ;
        z as u8
    }

    /// Replaces `x`; refuses a value outside `0..32` and then changes nothing.
    pub fn set_x(&mut self, x: u8) -> (r: Result<(), ChunkError>)
        ensures
            r is Ok <==> x < 32,
            r is Ok ==> final(self)@ == (Voxel { x: x as int, ..old(self)@ }),
            r is Err ==> r->Err_0 == ChunkError::CoordinateOutOfRange && *final(self) == *old(
                self,
            ),
            final(self).wf(),
    {
        proof {
            use_type_invariant(&*self);
        }
        if x >= CHUNK_EDGE {
            return Err(ChunkError::CoordinateOutOfRange);
        }
        let raw: u16 = self.0;
        let new: u16 = (raw & 0b0_00000_11111_11111) | ((x as u16) << 10);
        assert(new < 0x8000 && (new / 1024) % 32 == x && (new / 32) % 32 == (raw / 32) % 32 && new
            % 32 == raw % 32) by (bit_vector)
            requires
                x < 32,
                new == (raw & 0b0_00000_11111_11111) | ((x as u16) << 10),
        ;
        self.0 = new;
        Ok(())
    }

    /// Replaces `y`; refuses a value outside `0..32` and then changes nothing.
    pub fn set_y(&mut self, y: u8) -> (r: Result<(), ChunkError>)
        ensures
            r is Ok <==> y < 32,
            r is Ok ==> final(self)@ == (Voxel { y: y as int, ..old(self)@ }),
            r is Err ==> r->Err_0 == ChunkError::CoordinateOutOfRange && *final(self) == *old(
                self,
            ),
            final(self).wf(),
    {
        proof {
            use_type_invariant(&*self);
        }
        if y >= CHUNK_EDGE {
            return Err(ChunkError::CoordinateOutOfRange);
        }
        let raw: u16 = self.0;
        let new: u16 = (raw & 0b0_11111_00000_11111) | ((y as u16) << 5);
        assert(new < 0x8000 && (new / 1024) % 32 == (raw / 1024) % 32 && (new / 32) % 32 == y
            && new % 32 == raw % 32) by (bit_vector)
            requires
                y < 32,
                raw < 0x8000,
                new == (raw & 0b0_11111_00000_11111) | ((y as u16) << 5),
        ;
        self.0 = new;
        Ok(())
    }

    /// Replaces `z`; refuses a value outside `0..32` and then changes nothing.
    pub fn set_z(&mut self, z: u8) -> (r: Result<(), ChunkError>)
        ensures
            r is Ok <==> z < 32,
            r is Ok ==> final(self)@ == (Voxel { z: z as int, ..old(self)@ }),
            r is Err ==> r->Err_0 == ChunkError::CoordinateOutOfRange && *final(self) == *old(
                self,
            ),
            final(self).wf(),
    {
        proof {
            use_type_invariant(&*self);
        }
        if z >= CHUNK_EDGE {
            return Err(ChunkError::CoordinateOutOfRange);
        }
        let raw: u16 = self.0;
        let new: u16 = (raw & 0b0_11111_11111_00000) | (z as u16);
        assert(new < 0x8000 && (new / 1024) % 32 == (raw / 1024) % 32 && (new / 32) % 32 == (raw
            / 32) % 32 && new % 32 == z) by (bit_vector)
            requires
                z < 32,
                raw < 0x8000,
                new == (raw & 0b0_11111_11111_00000) | (z as u16),
        ;
        self.0 = new;
        Ok(())
    }

    /// Replaces all three fields, or none of them if any is outside `0..32`.
    pub fn set_location(&mut self, x: u8, y: u8, z: u8) -> (r: Result<(), ChunkError>)
        ensures
            r is Ok <==> x < 32 && y < 32 && z < 32,
            r is Ok ==> final(self)@ == (Voxel { x: x as int, y: y as int, z: z as int }),
            r is Err ==> r->Err_0 == ChunkError::CoordinateOutOfRange && *final(self) == *old(
                self,
            ),
            final(self).wf(),
    {
        proof {
            use_type_invariant(&*self);
        }
        if x >= CHUNK_EDGE || y >= CHUNK_EDGE || z >= CHUNK_EDGE {
            return Err(ChunkError::CoordinateOutOfRange);
        }
        let _ = self.set_x(x);
        let _ = self.set_y(y);
        let _ = self.set_z(z);
        Ok(())
    }
}

/// Packing loses nothing: unpacking the packed integer of a coordinate inside
/// the chunk gives that coordinate back, and the integer uses 15 bits. So
/// decoding what `encode` returned for `(x, y, z)` gives `(x, y, z)`.
pub proof fn lemma_unpack_pack(p: Voxel)
    requires
        p.in_chunk(),
    ensures
        0 <= pack(p) < 0x8000,
        unpack(pack(p)) == p,
{
}

/// Unpacking loses nothing: every 15-bit integer is the packing of the
/// coordinate it unpacks to, which lies inside the chunk.
pub proof fn lemma_pack_unpack(raw: int)
    requires
        0 <= raw < 0x8000,
    ensures
        unpack(raw).in_chunk(),
        pack(unpack(raw)) == raw,
{
}

/// A packed location is determined by its coordinate.
pub proof fn lemma_view_injective(a: PackedXYZ32, b: PackedXYZ32)
    requires
        a.wf(),
        b.wf(),
        a@ == b@,
    ensures
        a == b,
{
    lemma_pack_unpack(a.bits() as int);
    lemma_pack_unpack(b.bits() as int);
}

/// Every packed location denotes a coordinate inside the chunk.
pub proof fn lemma_view_in_chunk(a: PackedXYZ32)
    ensures
        a@.in_chunk(),
        a.wf() ==> a.bits() == pack(a@) && a.bits() < 0x8000,
        a@ == unpack(a.bits() as int),
{
    if a.wf() {
        lemma_pack_unpack(a.bits() as int);
    }
}

} // verus!
