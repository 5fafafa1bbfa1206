//! The voxel run store: what a chunk holds, as boxes of one kind each.
//!
//! A run is an axis-aligned box of voxels of one kind. The store keeps at
//! most one run per start location, never a run that leaves the chunk, and
//! never two runs that share a voxel, so every voxel has at most one kind.

use std::collections::BTreeMap;
use vstd::prelude::*;
use vstd::std_specs::cmp::OrdSpec;
use vstd::std_specs::iter::IteratorSpec;
use crate::bitmap::Cuboid;
use crate::block::VoxelKind;
use crate::error::ChunkError;
use crate::location::{unpack, lemma_view_in_chunk, PackedXYZ32, Voxel};

verus! {

/// A box of voxels of one kind: it starts at `start` and spans `extent + 1`
/// voxels along each axis.
#[derive(Clone, Copy, Debug, PartialEq, Eq, Structural)]
pub struct Run {
    pub start: PackedXYZ32,
    pub kind: VoxelKind,
    pub extent: PackedXYZ32,
}

impl Run {
    /// The voxels of the run.
    pub open spec fn region(self) -> Cuboid {
        Cuboid::spanning(self.start@, self.extent@)
    }

    /// The key under which the store files the run.
    pub open spec fn key(self) -> u16 {
        self.start.bits()
    }
}

/// The box that starts at `start` and is `len_x`, `len_y` and `len_z` voxels
/// long.
pub open spec fn sized(start: Voxel, len_x: int, len_y: int, len_z: int) -> Cuboid {
    Cuboid::spanning(start, Voxel { x: len_x - 1, y: len_y - 1, z: len_z - 1 })
}

/// The box of the run that is filed under `key` with the given extent.
pub open spec fn key_region(key: u16, extent: PackedXYZ32) -> Cuboid {
    Cuboid::spanning(unpack(key as int), extent@)
}

/// Whether the run filed under `key` exists and holds voxel `p`.
pub open spec fn covers(m: Map<u16, (VoxelKind, PackedXYZ32)>, key: u16, p: Voxel) -> bool {
    m.contains_key(key) && key_region(key, m[key].1).contains(p)
}

/// What the store promises of its runs: keys are packed locations, every run
/// lies inside the chunk, and no voxel belongs to two runs.
pub open spec fn runs_wf(m: Map<u16, (VoxelKind, PackedXYZ32)>) -> bool {
    &&& forall|key: u16| #[trigger]
        m.contains_key(key) ==> key < 0x8000 && key_region(key, m[key].1).in_chunk()
    &&& forall|k1: u16, k2: u16, p: Voxel|
        #![trigger covers(m, k1, p), covers(m, k2, p)]
        covers(m, k1, p) && covers(m, k2, p) ==> k1 == k2
}

/// The kind of the stored run that holds voxel `p`, if there is one.
pub open spec fn stored_kind(m: Map<u16, (VoxelKind, PackedXYZ32)>, p: Voxel) -> Option<
    VoxelKind,
> {
    if exists|key: u16| covers(m, key, p) {
        Some(m[choose|key: u16| covers(m, key, p)].0)
    } else {
        None
    }
}

/// Whether `runs` lists the runs of `m`: every one of `runs` is filed in `m`
/// under its key, and every run filed in `m` is among `runs`. Nothing is
/// said here of how often a run is listed; see `lists_once`.
pub open spec fn lists(runs: Seq<Run>, m: Map<u16, (VoxelKind, PackedXYZ32)>) -> bool {
    &&& forall|j: int|
        0 <= j < runs.len() ==> {
            let r = #[trigger] runs[j];
            r.start.wf() && m.contains_key(r.key()) && m[r.key()] == (r.kind, r.extent)
        }
    &&& forall|key: u16| #[trigger]
        m.contains_key(key) ==> exists|j: int| 0 <= j < runs.len() && (#[trigger] runs[j]).key() == key
}

/// Whether `runs` lists the runs of `m`, each once, in ascending order of
/// their keys. This fixes the sequence.
pub open spec fn lists_once(runs: Seq<Run>, m: Map<u16, (VoxelKind, PackedXYZ32)>) -> bool {
    &&& lists(runs, m)
    &&& runs.len() == m.len()
    &&& forall|i: int, j: int|
        0 <= i < j < runs.len() ==> (#[trigger] runs[i]).key() < (#[trigger] runs[j]).key()
}

/// Whether a kind passes a filter: `None` lets every kind pass.
pub open spec fn passes(filter: Option<VoxelKind>, kind: VoxelKind) -> bool {
    filter is None || filter == Some(kind)
}

/// Whether a voxel's content counts as occupied under a filter.
pub open spec fn selects(filter: Option<VoxelKind>, content: Option<VoxelKind>) -> bool {
    content is Some && passes(filter, content->Some_0)
}

/// Whether run `r` holds `p` and passes the filter.
pub open spec fn run_selected(filter: Option<VoxelKind>, r: Run, p: Voxel) -> bool {
    r.region().contains(p) && passes(filter, r.kind)
}

/// A listed run that holds `p` is the one that decides what the store holds
/// at `p`.
pub proof fn lemma_listed_run_decides(
    runs: Seq<Run>,
    m: Map<u16, (VoxelKind, PackedXYZ32)>,
    j: int,
    p: Voxel,
)
    requires
        runs_wf(m),
        lists(runs, m),
        0 <= j < runs.len(),
        runs[j].region().contains(p),
    ensures
        stored_kind(m, p) == Some(runs[j].kind),
        covers(m, runs[j].key(), p),
{
    let r = runs[j];
    lemma_view_in_chunk(r.start);
    assert(covers(m, r.key(), p));
    let chosen = choose|key: u16| covers(m, key, p);
    assert(covers(m, chosen, p));
}

/// What the store holds at `p` is held there by a listed run.
pub proof fn lemma_stored_kind_is_listed(
    runs: Seq<Run>,
    m: Map<u16, (VoxelKind, PackedXYZ32)>,
    p: Voxel,
) -> (j: int)
    requires
        runs_wf(m),
        lists(runs, m),
        stored_kind(m, p) is Some,
    ensures
        0 <= j < runs.len(),
        runs[j].region().contains(p),
        stored_kind(m, p) == Some(runs[j].kind),
{
    let chosen = choose|key: u16| covers(m, key, p);
    assert(m.contains_key(chosen));
    let j = choose|j: int| 0 <= j < runs.len() && (#[trigger] runs[j]).key() == chosen;
    lemma_view_in_chunk(runs[j].start);
    j
}

/// Whether the box that starts at `start` with the given extent holds
/// `(x, y, z)`.
pub fn span_holds(start: &PackedXYZ32, extent: &PackedXYZ32, x: u8, y: u8, z: u8) -> (holds: bool)
    ensures
        holds == Cuboid::spanning(start@, extent@).contains(
            Voxel { x: x as int, y: y as int, z: z as int },
        ),
{
    let (sx, sy, sz) = start.decode();
    let (dx, dy, dz) = extent.decode();
    sx <= x && x <= sx + dx && sy <= y && y <= sy + dy && sz <= z && z <= sz + dz
}

/// Whether `run` holds `(x, y, z)`.
pub fn run_holds(run: &Run, x: u8, y: u8, z: u8) -> (holds: bool)
    ensures
        holds == run.region().contains(Voxel { x: x as int, y: y as int, z: z as int }),
{
    span_holds(&run.start, &run.extent, x, y, z)
}

/// Whether the stored runs and `region` share a voxel.
pub open spec fn overlaps(m: Map<u16, (VoxelKind, PackedXYZ32)>, region: Cuboid) -> bool {
    exists|key: u16, p: Voxel| #[trigger] covers(m, key, p) && region.contains(p)
}

/// Whether two boxes share a voxel.
pub fn spans_meet(
    a_start: &PackedXYZ32,
    a_extent: &PackedXYZ32,
    b_start: &PackedXYZ32,
    b_extent: &PackedXYZ32,
) -> (meet: bool)
    ensures
        meet == exists|p: Voxel|
            Cuboid::spanning(a_start@, a_extent@).contains(p) && #[trigger] Cuboid::spanning(
                b_start@,
                b_extent@,
            ).contains(p),
{
    let (ax, ay, az) = a_start.decode();
    let (adx, ady, adz) = a_extent.decode();
    let (bx, by, bz) = b_start.decode();
    let (bdx, bdy, bdz) = b_extent.decode();
    let meet = ax <= bx + bdx && bx <= ax + adx && ay <= by + bdy && by <= ay + ady && az <= bz
        + bdz && bz <= az + adz;
    proof {
        let a = Cuboid::spanning(a_start@, a_extent@);
        let b = Cuboid::spanning(b_start@, b_extent@);
        if meet {
            let p = Voxel {
                x: if ax <= bx {
                    bx as int
                } else {
                    ax as int
                },
                y: if ay <= by {
                    by as int
                } else {
                    ay as int
                },
                z: if az <= bz {
                    bz as int
                } else {
                    az as int
                },
            };
            assert(a.contains(p) && b.contains(p));
        }
    }
    meet
}

/// Adding a run that lies inside the chunk and shares no voxel with the
/// stored runs keeps the store's promises, and its key is new.
pub proof fn lemma_insert_keeps_wf(
    m: Map<u16, (VoxelKind, PackedXYZ32)>,
    key: u16,
    kind: VoxelKind,
    extent: PackedXYZ32,
)
    requires
        runs_wf(m),
        key < 0x8000,
        key_region(key, extent).in_chunk(),
        !overlaps(m, key_region(key, extent)),
    ensures
        !m.contains_key(key),
        runs_wf(m.insert(key, (kind, extent))),
{
    let region = key_region(key, extent);
    let after = m.insert(key, (kind, extent));
    lemma_view_in_chunk(extent);
    if m.contains_key(key) {
        let p = unpack(key as int);
        lemma_view_in_chunk(m[key].1);
        assert(covers(m, key, p) && region.contains(p));
    }
    assert forall|k1: u16, k2: u16, p: Voxel|
        #![trigger covers(after, k1, p), covers(after, k2, p)]
        covers(after, k1, p) && covers(after, k2, p) implies k1 == k2 by {
        if k1 != key {
            assert(covers(m, k1, p));
        }
        if k2 != key {
            assert(covers(m, k2, p));
        }
    }
}

/// Whether no voxel belongs to two of `runs`.
pub open spec fn seq_disjoint(runs: Seq<Run>) -> bool {
    forall|i: int, j: int, p: Voxel|
        #![trigger runs[i].region().contains(p), runs[j].region().contains(p)]
        0 <= i < j < runs.len() ==> !(runs[i].region().contains(p) && runs[j].region().contains(p))
}

/// Whether every one of `runs` lies inside the chunk.
pub open spec fn seq_in_chunk(runs: Seq<Run>) -> bool {
    forall|i: int| 0 <= i < runs.len() ==> (#[trigger] runs[i]).region().in_chunk()
}

/// Whether one of `runs` holds `p`.
pub open spec fn seq_covers(runs: Seq<Run>, p: Voxel) -> bool {
    exists|i: int| 0 <= i < runs.len() && (#[trigger] runs[i]).region().contains(p)
}

/// Keys that a `BTreeMap` yields in increasing order grow strictly.
proof fn lemma_increasing_keys(keys: Seq<u16>)
    requires
        vstd::std_specs::btree::increasing_seq(keys),
    ensures
        forall|i: int, j: int| 0 <= i < j < keys.len() ==> keys[i] < keys[j],
{
    vstd::std_specs::btree::axiom_increasing_seq_meaning(keys);
    assert forall|i: int, j: int| 0 <= i < j < keys.len() implies keys[i] < keys[j] by {
        assert(keys[i].cmp_spec(&keys[j]) is Less);
    }
}

/// The runs of one chunk, keyed by packed start location.
pub struct VoxelRunStore {
    runs: BTreeMap<u16, (VoxelKind, PackedXYZ32)>,
}

impl View for VoxelRunStore {
    type V = Map<u16, (VoxelKind, PackedXYZ32)>;

    closed spec fn view(&self) -> Map<u16, (VoxelKind, PackedXYZ32)> {
        self.runs@
    }
}

impl VoxelRunStore {
    /// The store's invariant, which every store keeps at all times.
    #[verifier::type_invariant]
    pub open spec fn wf(self) -> bool {
        runs_wf(self@)
    }

    /// What the store holds at voxel `p`.
    pub open spec fn kind_at(self, p: Voxel) -> Option<VoxelKind> {
        stored_kind(self@, p)
    }

    /// A store without runs.
    pub fn new() -> (store: VoxelRunStore)
        ensures
            store@ == Map::<u16, (VoxelKind, PackedXYZ32)>::empty(),
            store.wf(),
    {
        VoxelRunStore { runs: BTreeMap::new() }
    }

    /// Number of stored runs.
    pub fn len(&self) -> (n: usize)
        ensures
            n == self@.len(),
    {
        self.runs.len()
    }

    /// The stored runs, each once, in ascending order of their keys.
    pub fn runs(&self) -> (out: Vec<Run>)
        ensures
            lists_once(out@, self@),
            runs_wf(self@),
    {
        proof {
            use_type_invariant(self);
        }
        let mut out: Vec<Run> = Vec::new();
        let ghost s = self.runs.iter().remaining();
        for kv in it: self.runs.iter()
            invariant
                runs_wf(self.runs@),
                it.seq() == s,
                s == self.runs.iter().remaining(),
                vstd::std_specs::btree::increasing_seq(
                    s.map_values(|kv: (&u16, &(VoxelKind, PackedXYZ32))| *kv.0),
                ),
                out@.len() == it.index(),
                forall|j: int|
                    0 <= j < out@.len() ==> {
                        let r = #[trigger] out@[j];
                        r.start.wf() && r.key() == *s[j].0 && (r.kind, r.extent) == *s[j].1
                    },
        {
            let (key, value) = kv;
            assert(self.runs@.contains_key(*key));
            let start = PackedXYZ32::from_bits(*key).unwrap();
            out.push(Run { start, kind: value.0, extent: value.1 });
        }
        proof {
            assert(out@.len() == s.len());
            let keys = s.map_values(|kv: (&u16, &(VoxelKind, PackedXYZ32))| *kv.0);
            lemma_increasing_keys(keys);
            assert forall|i: int, j: int| 0 <= i < j < out@.len() implies (#[trigger] out@[i]).key()
                < (#[trigger] out@[j]).key() by {
                assert(keys[i] == out@[i].key());
                assert(keys[j] == out@[j].key());
            }
            assert forall|key: u16| #[trigger] self.runs@.contains_key(key) implies exists|j: int|
                0 <= j < out@.len() && (#[trigger] out@[j]).key() == key by {
                assert(s.contains((&key, &self.runs@[key])));
                let j = choose|j: int| 0 <= j < s.len() && s[j] == (&key, &self.runs@[key]);
                assert(out@[j].key() == key);
            }
        }
        out
    }
}

impl VoxelRunStore {
    /// What the store holds at `(x, y, z)`.
    pub fn lookup(&self, x: u8, y: u8, z: u8) -> (kind: Option<VoxelKind>)
        ensures
            kind == self.kind_at(Voxel { x: x as int, y: y as int, z: z as int }),
    {
        let runs = self.runs();
        let ghost p = Voxel { x: x as int, y: y as int, z: z as int };
        let mut i: usize = 0;
        while i < runs.len()
            invariant
                i <= runs@.len(),
                runs_wf(self@),
                lists(runs@, self@),
                p == (Voxel { x: x as int, y: y as int, z: z as int }),
                forall|j: int| 0 <= j < i ==> !(#[trigger] runs@[j]).region().contains(p),
            decreases runs@.len() - i,
        {
            if run_holds(&runs[i], x, y, z) {
                proof {
                    lemma_listed_run_decides(runs@, self@, i as int, p);
                }
                return Some(runs[i].kind);
            }
            i = i + 1;
        }
        proof {
            if stored_kind(self@, p) is Some {
                let j = lemma_stored_kind_is_listed(runs@, self@, p);
            }
        }
        None
    }

    /// The run that starts at `start`, if there is one.
    pub fn get(&self, start: PackedXYZ32) -> (run: Option<Run>)
        ensures
            run is Some <==> self@.contains_key(start.bits()),
            run is Some ==> run->Some_0 == (Run {
                start,
                kind: self@[start.bits()].0,
                extent: self@[start.bits()].1,
            }),
    {
        let key = start.to_bits();
        match self.runs.get(&key) {
            Some(value) => Some(Run { start, kind: value.0, extent: value.1 }),
            None => None,
        }
    }

    /// Files a run directly, bypassing the edit log.
    ///
    /// The run starts at `start` and is `len_x`, `len_y` and `len_z` voxels
    /// long. It is refused, and the store left as it is, if a length is zero
    /// (`ZeroExtentRun`), otherwise if the run leaves the chunk
    /// (`CoordinateOutOfRange`), otherwise if it shares a voxel with a stored
    /// run of any kind (`OverlappingRun`).
    pub fn insert(&mut self, start: PackedXYZ32, kind: VoxelKind, len_x: u8, len_y: u8, len_z: u8) -> (r:
        Result<(), ChunkError>)
        ensures
            final(self).wf(),
            r is Ok <==> len_x > 0 && len_y > 0 && len_z > 0 && sized(
                start@,
                len_x as int,
                len_y as int,
                len_z as int,
            ).in_chunk() && !overlaps(
                old(self)@,
                sized(start@, len_x as int, len_y as int, len_z as int),
            ),
            r == Err::<(), ChunkError>(ChunkError::ZeroExtentRun) <==> len_x == 0 || len_y == 0
                || len_z == 0,
            r == Err::<(), ChunkError>(ChunkError::CoordinateOutOfRange) <==> len_x > 0 && len_y
                > 0 && len_z > 0 && !sized(start@, len_x as int, len_y as int, len_z as int).in_chunk(),
            r == Err::<(), ChunkError>(ChunkError::OverlappingRun) <==> len_x > 0 && len_y > 0
                && len_z > 0 && sized(start@, len_x as int, len_y as int, len_z as int).in_chunk()
                && overlaps(old(self)@, sized(start@, len_x as int, len_y as int, len_z as int)),
            r is Err ==> final(self)@ == old(self)@,
            r is Ok ==> exists|extent: PackedXYZ32|
                {
                    &&& extent.wf()
                    &&& extent@ == (Voxel { x: len_x - 1, y: len_y - 1, z: len_z - 1 })
                    &&& #[trigger] old(self)@.insert(start.bits(), (kind, extent)) == final(self)@
                    &&& !old(self)@.contains_key(start.bits())
                },
    {
        proof {
            use_type_invariant(&*self);
        }
        if len_x == 0 || len_y == 0 || len_z == 0 {
            return Err(ChunkError::ZeroExtentRun);
        }
        let (x, y, z) = start.decode();
        let ghost region = sized(start@, len_x as int, len_y as int, len_z as int);
        if len_x > 32 - x || len_y > 32 - y || len_z > 32 - z {
            return Err(ChunkError::CoordinateOutOfRange);
        }
        let extent = PackedXYZ32::encode(len_x - 1, len_y - 1, len_z - 1).unwrap();
        assert(region == Cuboid::spanning(start@, extent@));
        let key = start.to_bits();
        let stored = self.runs();
        let mut i: usize = 0;
        while i < stored.len()
            invariant
                i <= stored@.len(),
                lists(stored@, self@),
                runs_wf(self@),
                region == Cuboid::spanning(start@, extent@),
                region == sized(start@, len_x as int, len_y as int, len_z as int),
                region.in_chunk(),
                len_x > 0 && len_y > 0 && len_z > 0,
                self@ == old(self)@,
                forall|j: int, p: Voxel|
                    0 <= j < i ==> !((#[trigger] stored@[j].region().contains(p))
                        && region.contains(p)),
            decreases stored@.len() - i,
        {
            let run = &stored[i];
            if spans_meet(&run.start, &run.extent, &start, &extent) {
                proof {
                    let p = choose|p: Voxel|
                        run.region().contains(p) && #[trigger] Cuboid::spanning(
                            start@,
                            extent@,
                        ).contains(p);
                    lemma_run_facts(*run);
                    assert(covers(self@, run.key(), p) && region.contains(p));
                }
                return Err(ChunkError::OverlappingRun);
            }
            proof {
                assert forall|p: Voxel|
                    !((#[trigger] stored@[i as int].region().contains(p)) && region.contains(p)) by {
                    if stored@[i as int].region().contains(p) && region.contains(p) {
                        assert(Cuboid::spanning(start@, extent@).contains(p));
                    }
                }
            }
            i = i + 1;
        }
        proof {
            lemma_view_in_chunk(start);
            assert(key_region(key, extent) == region);
            if overlaps(self@, region) {
                let (k2, p) = choose|k2: u16, p: Voxel| #[trigger]
                    covers(self@, k2, p) && region.contains(p);
                let j = choose|j: int| 0 <= j < stored@.len() && (#[trigger] stored@[j]).key() == k2;
                lemma_run_facts(stored@[j]);
                assert(stored@[j].region().contains(p));
            }
            lemma_insert_keeps_wf(self@, key, kind, extent);
        }
        let mut runs = self.runs.clone();
        runs.insert(key, (kind, extent));
        self.runs = runs;
        Ok(())
    }

    /// The store that holds exactly `runs`.
    pub(crate) fn from_runs(runs: &Vec<Run>) -> (store: VoxelRunStore)
        requires
            seq_in_chunk(runs@),
            seq_disjoint(runs@),
        ensures
            lists(runs@, store@),
            store.wf(),
    {
        let mut map: BTreeMap<u16, (VoxelKind, PackedXYZ32)> = BTreeMap::new();
        let mut n: usize = 0;
        while n < runs.len()
            invariant
                n <= runs@.len(),
                seq_in_chunk(runs@),
                seq_disjoint(runs@),
                runs_wf(map@),
                forall|j: int|
                    0 <= j < n ==> {
                        let r = #[trigger] runs@[j];
                        r.start.wf() && map@.contains_key(r.key()) && map@[r.key()] == (
                            r.kind,
                            r.extent,
                        )
                    },
                forall|key: u16| #[trigger]
                    map@.contains_key(key) ==> exists|j: int|
                        0 <= j < n && (#[trigger] runs@[j]).key() == key,
            decreases runs@.len() - n,
        {
            let run = runs[n];
            let key = run.start.to_bits();
            let ghost before = map@;
            proof {
                lemma_run_facts(run);
                assert(run.region().in_chunk());
                assert forall|k2: u16, p: Voxel| covers(before, k2, p) implies !run.region().contains(
                    p,
                ) by {
                    let j = choose|j: int| 0 <= j < n && (#[trigger] runs@[j]).key() == k2;
                    lemma_run_facts(runs@[j]);
                    assert(runs@[j].region().contains(p));
                    if runs@[n as int].region().contains(p) {
                        assert(false);
                    }
                }
                assert(!before.contains_key(key)) by {
                    if before.contains_key(key) {
                        let j = choose|j: int| 0 <= j < n && (#[trigger] runs@[j]).key() == key;
                        lemma_run_facts(runs@[j]);
                        lemma_view_in_chunk(runs@[j].start);
                        lemma_view_in_chunk(run.start);
                        assert(covers(before, key, run.start@));
                    }
                }
            }
            map.insert(key, (run.kind, run.extent));
            proof {
                let after = map@;
                assert forall|k1: u16, k2: u16, p: Voxel|
                    #![trigger covers(after, k1, p), covers(after, k2, p)]
                    covers(after, k1, p) && covers(after, k2, p) implies k1 == k2 by {
                    if k1 != key {
                        assert(covers(before, k1, p));
                    }
                    if k2 != key {
                        assert(covers(before, k2, p));
                    }
                }
                assert forall|k2: u16| #[trigger] after.contains_key(k2) implies exists|j: int|
                    0 <= j < n + 1 && (#[trigger] runs@[j]).key() == k2 by {
                    if k2 == key {
                        assert(runs@[n as int].key() == k2);
                    } else {
                        assert(before.contains_key(k2));
                        let j = choose|j: int| 0 <= j < n && (#[trigger] runs@[j]).key() == k2;
                        assert(runs@[j].key() == k2);
                    }
                }
            }
            n = n + 1;
        }
        VoxelRunStore { runs: map }
    }
}

/// What a run's key says of it: the key unpacks to the start, so the run's
/// box is the box filed under the key, and the box holds its own start.
pub proof fn lemma_run_facts(r: Run)
    ensures
        r.region() == key_region(r.key(), r.extent),
        r.region().contains(r.start@),
        r.start.wf() ==> r.key() < 0x8000,
{
    lemma_view_in_chunk(r.start);
    lemma_view_in_chunk(r.extent);
}

} // verus!
