//! Pending edits: boxes to fill with a kind or to carve out, in arrival order.

use vstd::prelude::*;
use crate::bitmap::Cuboid;
use crate::block::VoxelKind;
use crate::location::{PackedXYZ32, Voxel};

verus! {

/// One pending edit.
///
/// `kind: Some(k)` fills the box with kind `k`; `kind: None` carves it out.
/// The box starts at `location` and spans `extent + 1` voxels along each axis.
#[derive(Clone, Copy, Debug, PartialEq, Eq)]
pub struct DeltaEntry {
    pub location: PackedXYZ32,
    pub kind: Option<VoxelKind>,
    pub extent: PackedXYZ32,
}

impl DeltaEntry {
    /// The voxels that the edit touches.
    pub open spec fn region(self) -> Cuboid {
        Cuboid::spanning(self.location@, self.extent@)
    }

    /// Whether the edit stays inside the chunk.
    pub open spec fn fits(self) -> bool {
        self.region().in_chunk()
    }

    /// An edit that fills a box with `kind`.
    pub fn insert(location: PackedXYZ32, kind: VoxelKind, extent: PackedXYZ32) -> (entry:
        DeltaEntry)
        ensures
            entry == (DeltaEntry { location, kind: Some(kind), extent }),
    {
        DeltaEntry { location, kind: Some(kind), extent }
    }

    /// An edit that carves a box out, whatever it held.
    pub fn delete(location: PackedXYZ32, extent: PackedXYZ32) -> (entry: DeltaEntry)
        ensures
            entry == (DeltaEntry { location, kind: None, extent }),
    {
        DeltaEntry { location, kind: None, extent }
    }

    /// Whether the edit stays inside the chunk.
    pub fn is_in_chunk(&self) -> (fits: bool)
        ensures
            fits == self.fits(),
    {
        let (x, y, z) = self.location.decode();
        let (dx, dy, dz) = self.extent.decode();
        x + dx < 32 && y + dy < 32 && z + dz < 32
    }
}

/// What a voxel holds once `deltas` were applied, in order, on top of `base`:
/// the last edit that touches the voxel decides, and a voxel that no edit
/// touches keeps `base`.
pub open spec fn replay(base: Option<VoxelKind>, deltas: Seq<DeltaEntry>, p: Voxel) -> Option<
    VoxelKind,
>
    decreases deltas.len(),
{
    if deltas.len() == 0 {
        base
    } else if deltas.last().region().contains(p) {
        deltas.last().kind
    } else {
        replay(base, deltas.drop_last(), p)
    }
}

/// Last write wins: of two edits that touch the same voxel, the later one
/// decides what the voxel holds, whatever came before them.
pub proof fn lemma_last_write_wins(
    base: Option<VoxelKind>,
    earlier: Seq<DeltaEntry>,
    first: DeltaEntry,
    second: DeltaEntry,
    p: Voxel,
)
    requires
        first.region().contains(p),
        second.region().contains(p),
    ensures
        replay(base, earlier.push(first).push(second), p) == second.kind,
{
}

/// The latest edit that touches a voxel decides what it holds: edits that
/// come later and leave the voxel alone change nothing for it.
pub proof fn lemma_latest_edit_decides(
    base: Option<VoxelKind>,
    deltas: Seq<DeltaEntry>,
    i: int,
    p: Voxel,
)
    requires
        0 <= i < deltas.len(),
        deltas[i].region().contains(p),
        forall|j: int| i < j < deltas.len() ==> !(#[trigger] deltas[j]).region().contains(p),
    ensures
        replay(base, deltas, p) == deltas[i].kind,
    decreases deltas.len(),
{
    if i < deltas.len() - 1 {
        assert(deltas.drop_last()[i] == deltas[i]);
        lemma_latest_edit_decides(base, deltas.drop_last(), i, p);
    }
}

/// A voxel that no edit touches keeps what it held.
pub proof fn lemma_untouched_keeps_base(base: Option<VoxelKind>, deltas: Seq<DeltaEntry>, p: Voxel)
    requires
        forall|j: int| 0 <= j < deltas.len() ==> !(#[trigger] deltas[j]).region().contains(p),
    ensures
        replay(base, deltas, p) == base,
    decreases deltas.len(),
{
    if deltas.len() > 0 {
        assert(deltas.drop_last().len() == deltas.len() - 1);
        assert forall|j: int| 0 <= j < deltas.drop_last().len() implies !(
        #[trigger] deltas.drop_last()[j]).region().contains(p) by {
            assert(deltas.drop_last()[j] == deltas[j]);
        }
        lemma_untouched_keeps_base(base, deltas.drop_last(), p);
    }
}

/// Whether every edit of a log stays inside the chunk.
pub open spec fn all_fit(deltas: Seq<DeltaEntry>) -> bool {
    forall|i: int| 0 <= i < deltas.len() ==> (#[trigger] deltas[i]).fits()
}

/// Whether every edit stays inside the chunk.
pub fn all_in_chunk(deltas: &Vec<DeltaEntry>) -> (ok: bool)
    ensures
        ok == all_fit(deltas@),
{
    let mut i: usize = 0;
    while i < deltas.len()
        invariant
            i <= deltas@.len(),
            forall|j: int| 0 <= j < i ==> (#[trigger] deltas@[j]).fits(),
        decreases deltas@.len() - i,
    {
        if !deltas[i].is_in_chunk() {
            return false;
        }
        i = i + 1;
    }
    true
}

/// The edits of a chunk that were not merged yet, oldest first.
pub struct DeltaLog {
    entries: Vec<DeltaEntry>,
}

impl View for DeltaLog {
    type V = Seq<DeltaEntry>;

    closed spec fn view(&self) -> Seq<DeltaEntry> {
        self.entries@
    }
}

impl DeltaLog {
    /// A log without edits.
    pub fn new() -> (log: DeltaLog)
        ensures
            log@ == Seq::<DeltaEntry>::empty(),
    {
        DeltaLog { entries: Vec::new() }
    }

    /// Adds an edit after all those already logged.
    pub fn append(&mut self, entry: DeltaEntry)
        ensures
            final(self)@ == old(self)@.push(entry),
    {
        self.entries.push(entry);
    }

    /// Hands out every edit, oldest first, and leaves the log empty.
    pub fn drain(&mut self) -> (entries: Vec<DeltaEntry>)
        ensures
            entries@ == old(self)@,
            final(self)@ == Seq::<DeltaEntry>::empty(),
    {
        let mut entries: Vec<DeltaEntry> = Vec::new();
        std::mem::swap(&mut entries, &mut self.entries);
        entries
    }

    /// Number of edits waiting to be merged.
    pub fn len(&self) -> (n: usize)
        ensures
            n == self@.len(),
    {
        self.entries.len()
    }

    /// Whether no edit is waiting.
    pub fn is_empty(&self) -> (empty: bool)
        ensures
            empty == (self@.len() == 0),
    {
        self.entries.len() == 0
    }

    /// The edits, oldest first.
    pub fn entries(&self) -> (entries: &Vec<DeltaEntry>)
        ensures
            entries@ == self@,
    {
        &self.entries
    }

    /// Whether every edit stays inside the chunk.
    pub fn all_in_chunk(&self) -> (ok: bool)
        ensures
            ok == all_fit(self@),
    {
        all_in_chunk(&self.entries)
    }
}

} // verus!
