//! The bitmap projector: what a chunk holds, drawn into an occupancy bitmap.
//!
//! The stored runs are drawn first, then every pending edit in arrival order,
//! so that a later edit overrides whatever was there. The bitmap shows either
//! the voxels of one kind or, without a filter, every solid voxel.

use vstd::prelude::*;
use crate::bitmap::{build_bitmap, Bitmap, Plane};
use crate::block::VoxelKind;
use crate::delta::{all_fit, replay, DeltaEntry};
use crate::error::ChunkError;
use crate::location::{PackedXYZ32, Voxel};
use crate::store::{
    lemma_listed_run_decides, lemma_stored_kind_is_listed, lists, passes, run_selected, runs_wf,
    selects, stored_kind, Run, VoxelRunStore,
};

verus! {

/// What voxel `p` holds, given the stored runs and the pending edits.
pub open spec fn voxel_at(
    m: Map<u16, (VoxelKind, PackedXYZ32)>,
    deltas: Seq<DeltaEntry>,
    p: Voxel,
) -> Option<VoxelKind> {
    replay(stored_kind(m, p), deltas, p)
}

/// Whether `(u, v, w)` names a cell of a bitmap.
pub open spec fn in_grid(u: int, v: int, w: int) -> bool {
    0 <= u < 32 && 0 <= v < 32 && 0 <= w < 32
}

/// Whether `bitmap` shows, along `plane`, exactly the voxels whose content
/// passes `filter`.
pub open spec fn shows(
    bitmap: Bitmap,
    plane: Plane,
    filter: Option<VoxelKind>,
    m: Map<u16, (VoxelKind, PackedXYZ32)>,
    deltas: Seq<DeltaEntry>,
) -> bool {
    forall|u: int, v: int, w: int| #[trigger]
        bitmap.cell(u, v, w) == (in_grid(u, v, w) && selects(
            filter,
            voxel_at(m, deltas, plane.lift(u, v, w)),
        ))
}

/// Whether one of the first `n` runs holds `p` and passes the filter.
pub open spec fn any_selected(runs: Seq<Run>, n: int, filter: Option<VoxelKind>, p: Voxel) -> bool {
    exists|j: int| 0 <= j < n && run_selected(filter, #[trigger] runs[j], p)
}

proof fn lemma_any_selected_is_stored(
    runs: Seq<Run>,
    m: Map<u16, (VoxelKind, PackedXYZ32)>,
    filter: Option<VoxelKind>,
    p: Voxel,
)
    requires
        runs_wf(m),
        lists(runs, m),
    ensures
        any_selected(runs, runs.len() as int, filter, p) == selects(filter, stored_kind(m, p)),
{
    if any_selected(runs, runs.len() as int, filter, p) {
        let j = choose|j: int| 0 <= j < runs.len() && run_selected(filter, #[trigger] runs[j], p);
        lemma_listed_run_decides(runs, m, j, p);
    }
    if selects(filter, stored_kind(m, p)) {
        let j = lemma_stored_kind_is_listed(runs, m, p);
        assert(run_selected(filter, runs[j], p));
    }
}

/// Replaying one more edit: it decides the voxels it touches and leaves the
/// others as they were.
pub proof fn lemma_replay_step(base: Option<VoxelKind>, deltas: Seq<DeltaEntry>, i: int, p: Voxel)
    requires
        0 <= i < deltas.len(),
    ensures
        replay(base, deltas.subrange(0, i + 1), p) == if deltas[i].region().contains(p) {
            deltas[i].kind
        } else {
            replay(base, deltas.subrange(0, i), p)
        },
{
    assert(deltas.subrange(0, i + 1).drop_last() =~= deltas.subrange(0, i));
}

/// A bitmap that shows the chunk along a plane holds a voxel exactly when
/// the voxel's content passes the filter.
pub proof fn lemma_shows_voxel(
    bitmap: Bitmap,
    plane: Plane,
    filter: Option<VoxelKind>,
    m: Map<u16, (VoxelKind, PackedXYZ32)>,
    deltas: Seq<DeltaEntry>,
    p: Voxel,
)
    requires
        shows(bitmap, plane, filter, m, deltas),
    ensures
        bitmap.holds(plane, p) == (p.in_chunk() && selects(filter, voxel_at(m, deltas, p))),
{
    assert(plane.lift(plane.u(p), plane.v(p), plane.w(p)) == p);
    assert(bitmap.cell(plane.u(p), plane.v(p), plane.w(p)) == (in_grid(
        plane.u(p),
        plane.v(p),
        plane.w(p),
    ) && selects(filter, voxel_at(m, deltas, p))));
}

/// Deletion takes precedence: once the last edit that touches a voxel is a
/// deletion, the voxel holds nothing, no projection shows it, whatever the
/// plane and the filter, and no run of a store that reflects the edits holds
/// it.
pub proof fn lemma_deletion_removes(
    m: Map<u16, (VoxelKind, PackedXYZ32)>,
    deltas: Seq<DeltaEntry>,
    i: int,
    p: Voxel,
)
    requires
        0 <= i < deltas.len(),
        deltas[i].kind is None,
        deltas[i].region().contains(p),
        forall|j: int| i < j < deltas.len() ==> !(#[trigger] deltas[j]).region().contains(p),
    ensures
        voxel_at(m, deltas, p) is None,
        forall|bitmap: Bitmap, plane: Plane, filter: Option<VoxelKind>| #[trigger]
            shows(bitmap, plane, filter, m, deltas) ==> !bitmap.holds(plane, p),
        forall|merged: Map<u16, (VoxelKind, PackedXYZ32)>, key: u16|
            stored_kind(merged, p) == voxel_at(m, deltas, p) ==> !#[trigger] crate::store::covers(
                merged,
                key,
                p,
            ),
{
    crate::delta::lemma_latest_edit_decides(stored_kind(m, p), deltas, i, p);
    assert forall|bitmap: Bitmap, plane: Plane, filter: Option<VoxelKind>| #[trigger]
        shows(bitmap, plane, filter, m, deltas) implies !bitmap.holds(plane, p) by {
        lemma_shows_voxel(bitmap, plane, filter, m, deltas, p);
    }
}

/// The planes are views of the same solid: two bitmaps that show the same
/// content along two planes agree on every voxel.
pub proof fn lemma_planes_agree(
    first: Bitmap,
    first_plane: Plane,
    second: Bitmap,
    second_plane: Plane,
    filter: Option<VoxelKind>,
    m: Map<u16, (VoxelKind, PackedXYZ32)>,
    deltas: Seq<DeltaEntry>,
    p: Voxel,
)
    requires
        shows(first, first_plane, filter, m, deltas),
        shows(second, second_plane, filter, m, deltas),
    ensures
        first.holds(first_plane, p) == second.holds(second_plane, p),
{
    lemma_shows_voxel(first, first_plane, filter, m, deltas, p);
    lemma_shows_voxel(second, second_plane, filter, m, deltas, p);
}

/// Whether a kind passes a filter.
pub fn kind_passes(filter: Option<VoxelKind>, kind: VoxelKind) -> (pass: bool)
    ensures
        pass == passes(filter, kind),
{
    match filter {
        None => true,
        Some(wanted) => wanted == kind,
    }
}

/// Draws the chunk's content into a fresh bitmap along `plane`.
///
/// With `filter: Some(kind)` the bitmap shows the voxels of that kind; with
/// `filter: None` it shows every solid voxel. An edit that fills with another
/// kind vacates the cells it touches, exactly as a deletion does.
///
/// Fails if any pending edit reaches outside the chunk.
pub fn project(
    store: &VoxelRunStore,
    deltas: &Vec<DeltaEntry>,
    filter: Option<VoxelKind>,
    plane: Plane,
) -> (r: Result<Bitmap, ChunkError>)
    ensures
        r is Ok <==> all_fit(deltas@),
        r is Ok ==> shows(r->Ok_0, plane, filter, store@, deltas@),
        r is Err ==> r->Err_0 == ChunkError::CoordinateOutOfRange,
{
    let runs = store.runs();
    let ghost m = store@;
    let mut uv = Bitmap::new();
    let mut i: usize = 0;
    while i < runs.len()
        invariant
            i <= runs@.len(),
            runs_wf(m),
            lists(runs@, m),
            forall|u: int, v: int, w: int| #[trigger]
                uv.cell(u, v, w) == any_selected(runs@, i as int, filter, plane.lift(u, v, w)),
        decreases runs@.len() - i,
    {
        let run = runs[i];
        let ghost before = uv;
        if kind_passes(filter, run.kind) {
            proof {
                crate::location::lemma_view_in_chunk(run.start);
            }
            let drawn = build_bitmap(&mut uv, run.start, run.extent, plane, false);
            assert(drawn is Ok);
        }
        proof {
            assert forall|u: int, v: int, w: int| #[trigger]
                uv.cell(u, v, w) == any_selected(
                    runs@,
                    i as int + 1,
                    filter,
                    plane.lift(u, v, w),
                ) by {
                let p = plane.lift(u, v, w);
                assert(before.cell(u, v, w) == any_selected(runs@, i as int, filter, p));
                if any_selected(runs@, i as int + 1, filter, p) {
                    let j = choose|j: int|
                        0 <= j < i + 1 && run_selected(filter, #[trigger] runs@[j], p);
                    if j < i {
                        assert(any_selected(runs@, i as int, filter, p));
                    }
                }
                if run_selected(filter, runs@[i as int], p) {
                    assert(any_selected(runs@, i as int + 1, filter, p));
                }
            }
        }
        i = i + 1;
    }
    proof {
        assert forall|u: int, v: int, w: int| #[trigger]
            uv.cell(u, v, w) == (in_grid(u, v, w) && selects(
                filter,
                replay(stored_kind(m, plane.lift(u, v, w)), deltas@.subrange(0, 0), plane.lift(u, v, w)),
            )) by {
            let p = plane.lift(u, v, w);
            lemma_any_selected_is_stored(runs@, m, filter, p);
            if selects(filter, stored_kind(m, p)) {
                let j = lemma_stored_kind_is_listed(runs@, m, p);
                lemma_listed_run_decides(runs@, m, j, p);
            }
        }
    }
    let mut k: usize = 0;
    while k < deltas.len()
        invariant
            k <= deltas@.len(),
            forall|j: int| 0 <= j < k ==> (#[trigger] deltas@[j]).fits(),
            forall|u: int, v: int, w: int| #[trigger]
                uv.cell(u, v, w) == (in_grid(u, v, w) && selects(
                    filter,
                    replay(
                        stored_kind(m, plane.lift(u, v, w)),
                        deltas@.subrange(0, k as int),
                        plane.lift(u, v, w),
                    ),
                )),
        decreases deltas@.len() - k,
    {
        let entry = deltas[k];
        let fill = match entry.kind {
            Some(kind) => kind_passes(filter, kind),
            None => false,
        };
        let ghost before = uv;
        match build_bitmap(&mut uv, entry.location, entry.extent, plane, !fill) {
            Ok(()) => {},
            Err(e) => {
                return Err(e);
            },
        }
        proof {
            assert forall|u: int, v: int, w: int| #[trigger]
                uv.cell(u, v, w) == (in_grid(u, v, w) && selects(
                    filter,
                    replay(
                        stored_kind(m, plane.lift(u, v, w)),
                        deltas@.subrange(0, k as int + 1),
                        plane.lift(u, v, w),
                    ),
                )) by {
                let p = plane.lift(u, v, w);
                lemma_replay_step(stored_kind(m, p), deltas@, k as int, p);
                assert(before.cell(u, v, w) == (in_grid(u, v, w) && selects(
                    filter,
                    replay(stored_kind(m, p), deltas@.subrange(0, k as int), p),
                )));
            }
        }
        k = k + 1;
    }
    proof {
        assert(deltas@.subrange(0, k as int) =~= deltas@);
    }
    Ok(uv)
}

} // verus!
