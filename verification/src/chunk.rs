//! A chunk of the grid: its stored runs, its pending edits, its props.

use std::collections::BTreeMap;
use bevy::math::IVec3;
use vstd::prelude::*;
use crate::allocator::ChunkManager;
use crate::block::{GridObjectKind, VoxelKind};
use crate::delta::{all_fit, replay, DeltaEntry, DeltaLog};
use crate::error::ChunkError;
use crate::location::{PackedXYZ32, Voxel};
use crate::merge::{holds_greedy_cuts, merge};
use crate::mesh::{build_mesh, kind_order, meshes, Quad};
use crate::projector::{lemma_replay_step, voxel_at};
use crate::store::{lists_once, runs_wf, span_holds, stored_kind, Run, VoxelRunStore};

verus! {

/// `bevy::math::IVec3`, a vector of three `i32`. The library carries a
/// chunk's position in its grid as such a vector and never looks inside.
#[verifier::external_type_specification]
#[verifier::external_body]
pub struct ExIVec3(IVec3);

/// What a chunk is made of, as seen by specifications.
pub struct ChunkState {
    /// Position of the chunk in its parent grid.
    pub location: IVec3,
    /// Identifier of the chunk within its grid.
    pub id: u16,
    /// The stored runs, by packed start location.
    pub runs: Map<u16, (VoxelKind, PackedXYZ32)>,
    /// The edits that were recorded since the last merge, oldest first.
    pub deltas: Seq<DeltaEntry>,
    /// The props, by packed location.
    pub props: Map<u16, GridObjectKind>,
}

impl ChunkState {
    /// What voxel `p` holds: the last pending edit that touches it decides,
    /// and a voxel that no edit touches holds what is stored.
    pub open spec fn voxel(self, p: Voxel) -> Option<VoxelKind> {
        voxel_at(self.runs, self.deltas, p)
    }
}

/// One chunk of a grid.
pub struct GridChunk {
    location: IVec3,
    id: u16,
    voxels: VoxelRunStore,
    props: BTreeMap<u16, GridObjectKind>,
    delta: DeltaLog,
}

impl View for GridChunk {
    type V = ChunkState;

    closed spec fn view(&self) -> ChunkState {
        ChunkState {
            location: self.location,
            id: self.id,
            runs: self.voxels@,
            deltas: self.delta@,
            props: self.props@,
        }
    }
}

impl GridChunk {
    /// An empty chunk at `location`, under an identifier taken from
    /// `manager`. Fails, changing nothing, when `manager` has none to give.
    pub fn new(manager: &mut ChunkManager, location: IVec3) -> (r: Result<GridChunk, ChunkError>)
        ensures
            r is Ok <==> old(manager)@.can_allocate(),
            r is Ok ==> final(manager)@ == old(manager)@.after_allocate() && r->Ok_0@ == (
            ChunkState {
                location,
                id: old(manager)@.next_id() as u16,
                runs: Map::empty(),
                deltas: Seq::empty(),
                props: Map::empty(),
            }),
            r is Err ==> r->Err_0 == ChunkError::IdSpaceExhausted && final(manager)@ == old(
                manager,
            )@,
    {
        let id = match manager.allocate() {
            Ok(id) => id,
            Err(e) => {
                return Err(e);
            },
        };
        Ok(
            GridChunk {
                location,
                id,
                voxels: VoxelRunStore::new(),
                props: BTreeMap::new(),
                delta: DeltaLog::new(),
            },
        )
    }

    /// Gives the chunk's identifier back to `manager`; the chunk is gone.
    pub fn drop(self, manager: &mut ChunkManager)
        ensures
            final(manager)@ == old(manager)@.after_deallocate(self@.id),
    {
        manager.deallocate(self.id);
    }

    /// Identifier of the chunk within its grid.
    pub fn id(&self) -> (id: u16)
        ensures
            id == self@.id,
    {
        self.id
    }

    /// Position of the chunk in its parent grid.
    pub fn location(&self) -> (location: IVec3)
        ensures
            location == self@.location,
    {
        self.location
    }

    /// The stored runs. They reflect the edits only after `encode`.
    pub fn voxels(&self) -> (store: &VoxelRunStore)
        ensures
            store@ == self@.runs,
            store.wf(),
    {
        proof {
            use_type_invariant(&self.voxels);
        }
        &self.voxels
    }

    /// The edits recorded since the last merge.
    pub fn pending(&self) -> (log: &DeltaLog)
        ensures
            log@ == self@.deltas,
    {
        &self.delta
    }

    /// Records an edit. Nothing is recomputed: the stored runs stay as they
    /// are until `encode`.
    pub fn record_edit(&mut self, entry: DeltaEntry)
        ensures
            final(self)@ == (ChunkState { deltas: old(self)@.deltas.push(entry), ..old(self)@ }),
    {
        self.delta.append(entry);
    }

    /// Folds the pending edits into the stored runs and empties the log.
    ///
    /// Afterwards every voxel holds what it held before, now by the stored
    /// runs alone. With nothing pending the store is left exactly as it is;
    /// otherwise it holds, for each kind, the runs that greedy extraction
    /// cuts out of the kind's `XY` bitmap, each one voxel thick.
    /// If an edit reaches outside the chunk the pass is abandoned: the call
    /// fails and changes nothing.
    pub fn encode(&mut self) -> (r: Result<(), ChunkError>)
        ensures
            r is Ok <==> all_fit(old(self)@.deltas),
            r is Ok ==> {
                &&& final(self)@.deltas == Seq::<DeltaEntry>::empty()
                &&& final(self)@.location == old(self)@.location
                &&& final(self)@.id == old(self)@.id
                &&& final(self)@.props == old(self)@.props
                &&& runs_wf(final(self)@.runs)
                &&& forall|p: Voxel| #[trigger] final(self)@.voxel(p) == old(self)@.voxel(p)
                &&& old(self)@.deltas.len() == 0 ==> final(self)@.runs == old(self)@.runs
                &&& old(self)@.deltas.len() > 0 ==> holds_greedy_cuts(
                    final(self)@.runs,
                    old(self)@.runs,
                    old(self)@.deltas,
                )
            },
            r is Err ==> r->Err_0 == ChunkError::CoordinateOutOfRange && final(self)@ == old(
                self,
            )@,
    {
        proof {
            use_type_invariant(&self.voxels);
        }
        if self.delta.is_empty() {
            assert(self@.deltas =~= Seq::<DeltaEntry>::empty());
            return Ok(());
        }
        let merged = match merge(&self.voxels, self.delta.entries()) {
            Ok(merged) => merged,
            Err(e) => {
                return Err(e);
            },
        };
        proof {
            assert forall|p: Voxel|
                stored_kind(merged@, p) == #[trigger] voxel_at(self@.runs, self@.deltas, p) by {
                assert(merged.kind_at(p) == voxel_at(self@.runs, self@.deltas, p));
            }
        }
        self.voxels = merged;
        let _ = self.delta.drain();
        proof {
            assert forall|p: Voxel| #[trigger] self@.voxel(p) == old(self)@.voxel(p) by {
                assert(stored_kind(self@.runs, p) == voxel_at(old(self)@.runs, old(self)@.deltas, p));
            }
        }
        Ok(())
    }

    /// Puts a prop at `location` and returns the one that was there. Props
    /// are kept apart from the voxels: they are neither merged nor meshed,
    /// and no edit of voxels touches them.
    pub fn place_prop(&mut self, location: PackedXYZ32, kind: GridObjectKind) -> (previous: Option<
        GridObjectKind,
    >)
        ensures
            final(self)@ == (ChunkState {
                props: old(self)@.props.insert(location.bits(), kind),
                ..old(self)@
            }),
            previous == if old(self)@.props.contains_key(location.bits()) {
                Some(old(self)@.props[location.bits()])
            } else {
                None
            },
    {
        let key = location.to_bits();
        self.props.insert(key, kind)
    }

    /// The prop at `location`, if there is one.
    pub fn prop_at(&self, location: PackedXYZ32) -> (kind: Option<GridObjectKind>)
        ensures
            kind == if self@.props.contains_key(location.bits()) {
                Some(self@.props[location.bits()])
            } else {
                None
            },
    {
        let key = location.to_bits();
        match self.props.get(&key) {
            Some(kind) => Some(*kind),
            None => None,
        }
    }

    /// Takes the prop at `location` away and returns it.
    pub fn remove_prop(&mut self, location: PackedXYZ32) -> (removed: Option<GridObjectKind>)
        ensures
            final(self)@ == (ChunkState {
                props: old(self)@.props.remove(location.bits()),
                ..old(self)@
            }),
            removed == if old(self)@.props.contains_key(location.bits()) {
                Some(old(self)@.props[location.bits()])
            } else {
                None
            },
    {
        let key = location.to_bits();
        self.props.remove(&key)
    }

    /// The visible faces of the chunk as it stands, merged into quads.
    ///
    /// Pending edits count as if they were merged already, and nothing is
    /// changed, so the call needs no `encode` before it. Fails if a pending
    /// edit reaches outside the chunk.
    pub fn build_mesh(&self) -> (r: Result<Vec<Quad>, ChunkError>)
        ensures
            r is Ok <==> all_fit(self@.deltas),
            r is Ok ==> meshes(r->Ok_0@, self@.runs, self@.deltas),
            r is Ok ==> kind_order(r->Ok_0@, self@.runs, self@.deltas),
            r is Err ==> r->Err_0 == ChunkError::CoordinateOutOfRange,
    {
        build_mesh(&self.voxels, self.delta.entries())
    }

    /// The stored runs, each once and in ascending order of their keys, for
    /// writing the chunk out. Refuses while edits are pending, since the
    /// stored runs would not reflect them.
    pub fn runs_to_persist(&self) -> (r: Result<Vec<Run>, ChunkError>)
        ensures
            r is Ok <==> self@.deltas.len() == 0,
            r is Ok ==> lists_once(r->Ok_0@, self@.runs),
            r is Err ==> r->Err_0 == ChunkError::StaleEncode,
    {
        if !self.delta.is_empty() {
            return Err(ChunkError::StaleEncode);
        }
        Ok(self.voxels.runs())
    }

    /// What the voxel at `(x, y, z)` holds right now, pending edits included.
    pub fn voxel(&self, x: u8, y: u8, z: u8) -> (kind: Option<VoxelKind>)
        ensures
            kind == self@.voxel(Voxel { x: x as int, y: y as int, z: z as int }),
    {
        let deltas = self.delta.entries();
        let ghost p = Voxel { x: x as int, y: y as int, z: z as int };
        let ghost base = stored_kind(self.voxels@, p);
        let mut i: usize = deltas.len();
        proof {
            assert(deltas@.subrange(0, i as int) =~= deltas@);
        }
        while i > 0
            invariant
                i <= deltas@.len(),
                p == (Voxel { x: x as int, y: y as int, z: z as int }),
                deltas@ == self@.deltas,
                base == stored_kind(self@.runs, p),
                replay(base, deltas@, p) == replay(base, deltas@.subrange(0, i as int), p),
            decreases i,
        {
            i = i - 1;
            let entry = &deltas[i];
            proof {
                lemma_replay_step(base, deltas@, i as int, p);
            }
            if span_holds(&entry.location, &entry.extent, x, y, z) {
                return entry.kind;
            }
        }
        self.voxels.lookup(x, y, z)
    }
}

} // verus!
