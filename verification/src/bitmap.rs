//! Occupancy bitmaps: one chunk's worth of cells, seen along one plane.
//!
//! A bitmap holds 32 layers of 32 rows of 32 cells. A plane says which of a
//! voxel's coordinates runs along the cells of a row (`u`), which across the
//! rows of a layer (`v`) and which across the layers (`w`). A layer of the
//! `XY` plane is a slice of constant `z`, one of `YZ` a slice of constant `x`,
//! one of `XZ` a slice of constant `y`.

use vstd::prelude::*;
use crate::bits::{has_bit, span_mask, test_bit, lemma_bit_or, lemma_bit_and_not, lemma_bit_zero};
use crate::error::ChunkError;
use crate::location::{PackedXYZ32, Voxel};

verus! {

/// An axis-aligned box of voxels, both corners included.
pub struct Cuboid {
    pub lo: Voxel,
    pub hi: Voxel,
}

impl Cuboid {
    /// The box that starts at `start` and reaches `extent` further along each
    /// axis: a run of length `extent + 1` per axis.
    pub open spec fn spanning(start: Voxel, extent: Voxel) -> Cuboid {
        Cuboid {
            lo: start,
            hi: Voxel { x: start.x + extent.x, y: start.y + extent.y, z: start.z + extent.z },
        }
    }

    /// Whether the box holds voxel `p`.
    pub open spec fn contains(self, p: Voxel) -> bool {
        &&& self.lo.x <= p.x <= self.hi.x
        &&& self.lo.y <= p.y <= self.hi.y
        &&& self.lo.z <= p.z <= self.hi.z
    }

    /// Whether the whole box lies inside a chunk.
    pub open spec fn in_chunk(self) -> bool {
        self.lo.in_chunk() && self.hi.in_chunk()
    }
}

/// One of the three axis-aligned projection planes.
#[derive(Clone, Copy, Debug, PartialEq, Eq, Structural)]
pub enum Plane {
    XY,
    YZ,
    XZ,
}

impl Plane {
    /// The coordinate of `p` that runs along the cells of a row.
    pub open spec fn u(self, p: Voxel) -> int {
        match self {
            Plane::XY => p.x,
            Plane::YZ => p.y,
            Plane::XZ => p.x,
        }
    }

    /// The coordinate of `p` that runs across the rows of a layer.
    pub open spec fn v(self, p: Voxel) -> int {
        match self {
            Plane::XY => p.y,
            Plane::YZ => p.z,
            Plane::XZ => p.z,
        }
    }

    /// The coordinate of `p` that runs across the layers.
    pub open spec fn w(self, p: Voxel) -> int {
        match self {
            Plane::XY => p.z,
            Plane::YZ => p.x,
            Plane::XZ => p.y,
        }
    }

    /// The voxel that sits at cell `u` of row `v` of layer `w`.
    pub open spec fn lift(self, u: int, v: int, w: int) -> Voxel {
        match self {
            Plane::XY => Voxel { x: u, y: v, z: w },
            Plane::YZ => Voxel { x: w, y: u, z: v },
            Plane::XZ => Voxel { x: u, y: w, z: v },
        }
    }

    /// Splits a packed coordinate into `(u, v, w)`.
    pub fn split(self, loc: &PackedXYZ32) -> (r: (u8, u8, u8))
        ensures
            r.0 == self.u(loc@),
            r.1 == self.v(loc@),
            r.2 == self.w(loc@),
            r.0 < 32 && r.1 < 32 && r.2 < 32,
    {
        match self {
            Plane::XY => (loc.x(), loc.y(), loc.z()),
            Plane::YZ => (loc.y(), loc.z(), loc.x()),
            Plane::XZ => (loc.x(), loc.z(), loc.y()),
        }
    }
}

/// A 32 x 32 grid of 32-bit occupancy words.
pub struct Bitmap {
    words: [[u32; 32]; 32],
}

impl Bitmap {
    /// The word of row `v` in layer `w`.
    pub closed spec fn row(&self, v: int, w: int) -> u32 {
        self.words[w][v]
    }

    /// Whether cell `u` of row `v` of layer `w` is occupied. No cell outside
    /// the grid is.
    pub open spec fn cell(&self, u: int, v: int, w: int) -> bool {
        0 <= v < 32 && 0 <= w < 32 && has_bit(self.row(v, w), u)
    }

    /// Whether the cell that stands for voxel `p` along `plane` is occupied.
    pub open spec fn holds(&self, plane: Plane, p: Voxel) -> bool {
        self.cell(plane.u(p), plane.v(p), plane.w(p))
    }

    /// The bitmap with no cell occupied.
    pub fn new() -> (bitmap: Bitmap)
        ensures
            forall|v: int, w: int| 0 <= v < 32 && 0 <= w < 32 ==> #[trigger] bitmap.row(v, w) == 0,
            forall|u: int, v: int, w: int| !#[trigger] bitmap.cell(u, v, w),
    {
        let bitmap = Bitmap { words: [[0u32; 32]; 32] };
        proof {
            assert forall|u: int, v: int, w: int| !#[trigger] bitmap.cell(u, v, w) by {
                lemma_bit_zero(u);
            }
        }
        bitmap
    }

    /// A copy of the bitmap.
    pub fn duplicate(&self) -> (copy: Bitmap)
        ensures
            copy == *self,
    {
        Bitmap { words: self.words }
    }

    /// Reads the word of row `v` in layer `w`.
    pub fn get_row(&self, v: usize, w: usize) -> (word: u32)
        requires
            v < 32,
            w < 32,
        ensures
            word == self.row(v as int, w as int),
    {
        self.words[w][v]
    }

    /// Replaces the word of row `v` in layer `w`.
    pub fn set_row(&mut self, v: usize, w: usize, word: u32)
        requires
            v < 32,
            w < 32,
        ensures
            forall|v2: int, w2: int|
                0 <= v2 < 32 && 0 <= w2 < 32 ==> #[trigger] final(self).row(v2, w2) == if v2 == v
                    && w2 == w {
                    word
                } else {
                    old(self).row(v2, w2)
                },
    {
        self.words[w][v] = word;
    }

    /// Whether cell `u` of row `v` of layer `w` is occupied.
    pub fn get(&self, u: u8, v: u8, w: u8) -> (set: bool)
        ensures
            set == self.cell(u as int, v as int, w as int),
    {
        if u >= 32 || v >= 32 || w >= 32 {
            return false;
        }
        test_bit(self.words[w as usize][v as usize], u as u32)
    }
}

/// The word that `build_bitmap` leaves in a row it touches.
pub open spec fn stamped(word: u32, mask: u32, clear: bool) -> u32 {
    if clear {
        word & !mask
    } else {
        word | mask
    }
}

/// Writes one box into a bitmap: occupies its cells, or vacates them when
/// `clear` is set. The box starts at `location` and spans `extent + 1` cells
/// along each axis; `plane` says how the axes map to the bitmap.
///
/// A box that reaches outside the chunk is refused and nothing is written.
pub fn build_bitmap(
    uv: &mut Bitmap,
    location: PackedXYZ32,
    extent: PackedXYZ32,
    plane: Plane,
    clear: bool,
) -> (r: Result<(), ChunkError>)
    ensures
        r is Ok <==> Cuboid::spanning(location@, extent@).in_chunk(),
        r is Ok ==> forall|u: int, v: int, w: int| #[trigger]
            final(uv).cell(u, v, w) == if Cuboid::spanning(location@, extent@).contains(
                plane.lift(u, v, w),
            ) {
                !clear
            } else {
                old(uv).cell(u, v, w)
            },
        r is Err ==> r->Err_0 == ChunkError::CoordinateOutOfRange && *final(uv) == *old(uv),
{
    let (lu, lv, lw) = plane.split(&location);
    let (eu, ev, ew) = plane.split(&extent);
    if lu + eu >= 32 || lv + ev >= 32 || lw + ew >= 32 {
        return Err(ChunkError::CoordinateOutOfRange);
    }
    let hu: u8 = lu + eu;
    let hv: u8 = lv + ev;
    let hw: u8 = lw + ew;
    // A run of `eu + 1` ones whose lowest bit sits at `lu`.
    let mask: u32 = span_mask(lu as u32, hu as u32);
    let mut w: u8 = lw;
    while w <= hw
        invariant
            lw <= w <= hw + 1,
            lv <= hv < 32,
            hw < 32,
            forall|v2: int, w2: int|
                0 <= v2 < 32 && 0 <= w2 < 32 ==> #[trigger] uv.row(v2, w2) == if lw <= w2 < w
                    && lv <= v2 <= hv {
                    stamped(old(uv).row(v2, w2), mask, clear)
                } else {
                    old(uv).row(v2, w2)
                },
        decreases hw + 1 - w,
    {
        let mut v: u8 = lv;
        while v <= hv
            invariant
                lw <= w <= hw,
                lv <= v <= hv + 1,
                hv < 32,
                hw < 32,
                forall|v2: int, w2: int|
                    0 <= v2 < 32 && 0 <= w2 < 32 ==> #[trigger] uv.row(v2, w2) == if (lw <= w2 < w
                        && lv <= v2 <= hv) || (w2 == w && lv <= v2 < v) {
                        stamped(old(uv).row(v2, w2), mask, clear)
                    } else {
                        old(uv).row(v2, w2)
                    },
            decreases hv + 1 - v,
        {
            let word = uv.get_row(v as usize, w as usize);
            let new = if clear {
                word & !mask
            } else {
                word | mask
            };
            uv.set_row(v as usize, w as usize, new);
            v = v + 1;
        }
        w = w + 1;
    }
    proof {
        let region = Cuboid::spanning(location@, extent@);
        assert forall|u: int, v: int, w: int| #[trigger]
            uv.cell(u, v, w) == if region.contains(plane.lift(u, v, w)) {
                !clear
            } else {
                old(uv).cell(u, v, w)
            } by {
            if 0 <= v < 32 && 0 <= w < 32 {
                let before = old(uv).row(v, w);
                assert(uv.row(v, w) == if lw <= w <= hw && lv <= v <= hv {
                    stamped(before, mask, clear)
                } else {
                    before
                });
                lemma_bit_or(before, mask, u);
                lemma_bit_and_not(before, mask, u);
            }
        }
    }
    Ok(())
}

} // verus!
