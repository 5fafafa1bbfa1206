//! The merge engine: pending edits folded into fresh runs, kind by kind.
//!
//! For every kind that the store or the edit log mentions, the voxels of that
//! kind are drawn into a bitmap of `XY` layers, the bitmap is cut into
//! rectangles, and each rectangle becomes a run one voxel thick. The kinds are
//! independent of each other and are worked on in parallel.

use vstd::prelude::*;
use rayon::iter::{IntoParallelRefIterator, ParallelIterator};
use crate::bitmap::{build_bitmap, Bitmap, Plane};
use crate::bits::lemma_words_differ;
use crate::block::VoxelKind;
use crate::delta::{all_fit, all_in_chunk, DeltaEntry};
use crate::error::ChunkError;
use crate::greedy::{claimed, extract_rectangles, is_greedy, is_partition, Rect};
use crate::location::{PackedXYZ32, Voxel};
use crate::projector::{any_selected, lemma_shows_voxel, project, shows, voxel_at};
use crate::store::{
    covers, lemma_listed_run_decides, lemma_stored_kind_is_listed, lists, runs_wf, seq_covers,
    seq_disjoint, seq_in_chunk, stored_kind, Run, VoxelRunStore,
};

verus! {

/// Applies `f` to every item, in parallel, and returns the results in the
/// order of the items.
///
/// Trusted, not proved: the body is rayon's `par_iter`, `map` and `collect`
/// on a `Vec`. A `Vec` gives an indexed parallel iterator, and collecting
/// one into a `Vec` keeps the order of the input. The contract claims that
/// there is one result per item and that each is what `f` returns for the
/// item at the same index; `f` is called on items only, so it is enough that
/// its precondition holds of each.
#[verifier::external_body]
pub(crate) fn par_map<T: Sync, R: Send, F: Fn(&T) -> R + Sync + Send>(items: &Vec<T>, f: F) -> (out:
    Vec<R>)
    requires
        forall|i: int| 0 <= i < items@.len() ==> call_requires(f, (&#[trigger] items@[i],)),
    ensures
        out@.len() == items@.len(),
        forall|i: int|
            0 <= i < items@.len() ==> call_ensures(f, (&items@[i],), #[trigger] out@[i]),
{
    items.par_iter().map(f).collect()
}

/// Adds the items of `more` at the end of `all`.
pub(crate) fn append<T: Copy>(all: &mut Vec<T>, more: &Vec<T>)
    ensures
        final(all)@ == old(all)@ + more@,
{
    let mut t: usize = 0;
    while t < more.len()
        invariant
            t <= more@.len(),
            all@ == old(all)@ + more@.subrange(0, t as int),
        decreases more@.len() - t,
    {
        all.push(more[t]);
        proof {
            assert(more@.subrange(0, t as int + 1) =~= more@.subrange(0, t as int).push(
                more@[t as int],
            ));
            assert(all@ =~= old(all)@ + more@.subrange(0, t as int + 1));
        }
        t = t + 1;
    }
    proof {
        assert(more@.subrange(0, t as int) =~= more@);
    }
}

/// Whether a run or an edit mentions `kind`.
pub open spec fn kind_present(kind: VoxelKind, runs: Seq<Run>, deltas: Seq<DeltaEntry>) -> bool {
    ||| exists|j: int| 0 <= j < runs.len() && (#[trigger] runs[j]).kind == kind
    ||| exists|i: int| 0 <= i < deltas.len() && (#[trigger] deltas[i]).kind == Some(kind)
}

/// A voxel that holds something lies inside the chunk.
pub proof fn lemma_content_in_chunk(
    m: Map<u16, (VoxelKind, PackedXYZ32)>,
    deltas: Seq<DeltaEntry>,
    p: Voxel,
)
    requires
        runs_wf(m),
        all_fit(deltas),
        voxel_at(m, deltas, p) is Some,
    ensures
        p.in_chunk(),
    decreases deltas.len(),
{
    if deltas.len() == 0 {
        let key = choose|key: u16| covers(m, key, p);
        assert(m.contains_key(key));
    } else if deltas.last().region().contains(p) {
        assert(deltas.last().fits());
    } else {
        lemma_content_in_chunk(m, deltas.drop_last(), p);
    }
}

/// What a voxel holds is a kind that a stored run or an edit mentions.
pub proof fn lemma_content_is_present(
    runs: Seq<Run>,
    m: Map<u16, (VoxelKind, PackedXYZ32)>,
    deltas: Seq<DeltaEntry>,
    p: Voxel,
)
    requires
        runs_wf(m),
        lists(runs, m),
        voxel_at(m, deltas, p) is Some,
    ensures
        kind_present(voxel_at(m, deltas, p)->Some_0, runs, deltas),
    decreases deltas.len(),
{
    if deltas.len() == 0 {
        let j = lemma_stored_kind_is_listed(runs, m, p);
        assert(runs[j].kind == voxel_at(m, deltas, p)->Some_0);
    } else if deltas.last().region().contains(p) {
        assert(deltas[deltas.len() - 1].kind == voxel_at(m, deltas, p));
    } else {
        let rest = deltas.drop_last();
        lemma_content_is_present(runs, m, rest, p);
        let kind = voxel_at(m, deltas, p)->Some_0;
        if exists|i: int| 0 <= i < rest.len() && (#[trigger] rest[i]).kind == Some(kind) {
            let i = choose|i: int| 0 <= i < rest.len() && (#[trigger] rest[i]).kind == Some(kind);
            assert(deltas[i].kind == Some(kind));
        }
    }
}

/// `kinds` with `kind` added at the end, unless it is there already.
pub open spec fn noted(kinds: Seq<VoxelKind>, kind: VoxelKind) -> Seq<VoxelKind> {
    if kinds.contains(kind) {
        kinds
    } else {
        kinds.push(kind)
    }
}

/// The kinds of the first `n` runs, each once, in order of first appearance.
pub open spec fn kinds_of_runs(runs: Seq<Run>, n: int) -> Seq<VoxelKind>
    decreases n,
{
    if n <= 0 {
        Seq::empty()
    } else {
        noted(kinds_of_runs(runs, n - 1), runs[n - 1].kind)
    }
}

/// The kinds of the runs, then those that the first `n` edits fill with, each
/// once, in order of first appearance.
pub open spec fn kinds_seen(runs: Seq<Run>, deltas: Seq<DeltaEntry>, n: int) -> Seq<VoxelKind>
    decreases n,
{
    if n <= 0 {
        kinds_of_runs(runs, runs.len() as int)
    } else {
        match deltas[n - 1].kind {
            Some(kind) => noted(kinds_seen(runs, deltas, n - 1), kind),
            None => kinds_seen(runs, deltas, n - 1),
        }
    }
}

/// Adds `kind` to `kinds` unless it is there already.
fn push_unique(kinds: &mut Vec<VoxelKind>, kind: VoxelKind)
    requires
        old(kinds)@.no_duplicates(),
    ensures
        final(kinds)@ == noted(old(kinds)@, kind),
        final(kinds)@.no_duplicates(),
        forall|k: VoxelKind| final(kinds)@.contains(k) == (old(kinds)@.contains(k) || k == kind),
{
    let mut i: usize = 0;
    while i < kinds.len()
        invariant
            i <= kinds@.len(),
            kinds@ == old(kinds)@,
            kinds@.no_duplicates(),
            forall|j: int| 0 <= j < i ==> kinds@[j] != kind,
        decreases kinds@.len() - i,
    {
        if kinds[i] == kind {
            assert(kinds@.contains(kind));
            return ;
        }
        i = i + 1;
    }
    kinds.push(kind);
    proof {
        let before = old(kinds)@;
        assert(!before.contains(kind));
        assert forall|k: VoxelKind| kinds@.contains(k) == (before.contains(k) || k == kind) by {
            if kinds@.contains(k) {
                let j = choose|j: int| 0 <= j < kinds@.len() && kinds@[j] == k;
                if j < before.len() {
                    assert(before[j] == k);
                }
            }
            if before.contains(k) {
                let j = choose|j: int| 0 <= j < before.len() && before[j] == k;
                assert(kinds@[j] == k);
            }
            if k == kind {
                assert(kinds@[before.len() as int] == k);
            }
        }
    }
}

/// The kinds that the runs and the edits mention, each once, in the order in
/// which they first appear.
pub fn kinds_present(runs: &Vec<Run>, deltas: &Vec<DeltaEntry>) -> (kinds: Vec<VoxelKind>)
    ensures
        kinds@ == kinds_seen(runs@, deltas@, deltas@.len() as int),
        kinds@.no_duplicates(),
        forall|k: VoxelKind| kinds@.contains(k) == kind_present(k, runs@, deltas@),
{
    let mut kinds: Vec<VoxelKind> = Vec::new();
    let mut i: usize = 0;
    while i < runs.len()
        invariant
            i <= runs@.len(),
            kinds@ == kinds_of_runs(runs@, i as int),
            kinds@.no_duplicates(),
            forall|k: VoxelKind|
                kinds@.contains(k) == exists|j: int| 0 <= j < i && (#[trigger] runs@[j]).kind == k,
        decreases runs@.len() - i,
    {
        let ghost before = kinds@;
        push_unique(&mut kinds, runs[i].kind);
        proof {
            assert forall|k: VoxelKind|
                kinds@.contains(k) == exists|j: int|
                    0 <= j < i + 1 && (#[trigger] runs@[j]).kind == k by {
                if exists|j: int| 0 <= j < i + 1 && (#[trigger] runs@[j]).kind == k {
                    let j = choose|j: int| 0 <= j < i + 1 && (#[trigger] runs@[j]).kind == k;
                    if j < i {
                        assert(before.contains(k));
                    }
                }
                if before.contains(k) {
                    let j = choose|j: int| 0 <= j < i && (#[trigger] runs@[j]).kind == k;
                    assert(runs@[j].kind == k);
                }
                if k == runs@[i as int].kind {
                    assert(runs@[i as int].kind == k);
                }
            }
        }
        i = i + 1;
    }
    let mut n: usize = 0;
    while n < deltas.len()
        invariant
            n <= deltas@.len(),
            kinds@ == kinds_seen(runs@, deltas@, n as int),
            kinds@.no_duplicates(),
            forall|k: VoxelKind|
                kinds@.contains(k) == ((exists|j: int|
                    0 <= j < runs@.len() && (#[trigger] runs@[j]).kind == k) || (exists|i: int|
                    0 <= i < n && (#[trigger] deltas@[i]).kind == Some(k))),
        decreases deltas@.len() - n,
    {
        let ghost before = kinds@;
        if let Some(kind) = deltas[n].kind {
            push_unique(&mut kinds, kind);
        }
        proof {
            assert forall|k: VoxelKind|
                kinds@.contains(k) == ((exists|j: int|
                    0 <= j < runs@.len() && (#[trigger] runs@[j]).kind == k) || (exists|i: int|
                    0 <= i < n + 1 && (#[trigger] deltas@[i]).kind == Some(k))) by {
                if exists|i: int| 0 <= i < n + 1 && (#[trigger] deltas@[i]).kind == Some(k) {
                    let i = choose|i: int| 0 <= i < n + 1 && (#[trigger] deltas@[i]).kind == Some(k);
                    if i < n {
                        assert(before.contains(k));
                    }
                }
                if exists|i: int| 0 <= i < n && (#[trigger] deltas@[i]).kind == Some(k) {
                    let i = choose|i: int| 0 <= i < n && (#[trigger] deltas@[i]).kind == Some(k);
                    assert(deltas@[i].kind == Some(k));
                }
                if deltas@[n as int].kind == Some(k) {
                    assert(deltas@[n as int].kind == Some(k));
                }
            }
        }
        n = n + 1;
    }
    kinds
}

/// Whether `runs` are the voxels of `kind`, cut into disjoint boxes inside
/// the chunk: a voxel belongs to one of them exactly when it holds `kind`.
pub open spec fn decodes(
    runs: Seq<Run>,
    kind: VoxelKind,
    m: Map<u16, (VoxelKind, PackedXYZ32)>,
    deltas: Seq<DeltaEntry>,
) -> bool {
    &&& forall|i: int| 0 <= i < runs.len() ==> (#[trigger] runs[i]).kind == kind
    &&& seq_in_chunk(runs)
    &&& seq_disjoint(runs)
    &&& forall|p: Voxel| #[trigger] seq_covers(runs, p) == (voxel_at(m, deltas, p) == Some(kind))
}

/// Round trip via planes: the runs decoded for a kind hold a voxel exactly
/// when a bitmap of that kind holds it, along whichever plane the bitmap was
/// drawn.
pub proof fn lemma_decoded_runs_match_planes(
    runs: Seq<Run>,
    kind: VoxelKind,
    m: Map<u16, (VoxelKind, PackedXYZ32)>,
    deltas: Seq<DeltaEntry>,
    bitmap: Bitmap,
    plane: Plane,
    p: Voxel,
)
    requires
        decodes(runs, kind, m, deltas),
        shows(bitmap, plane, Some(kind), m, deltas),
    ensures
        seq_covers(runs, p) == bitmap.holds(plane, p),
{
    lemma_shows_voxel(bitmap, plane, Some(kind), m, deltas, p);
    if seq_covers(runs, p) {
        let i = choose|i: int| 0 <= i < runs.len() && (#[trigger] runs[i]).region().contains(p);
        assert(runs[i].region().in_chunk());
    }
}

/// Cross-checks runs against a bitmap: whether the runs hold exactly the
/// voxels that the bitmap holds along `plane`.
pub fn runs_match(runs: &Vec<Run>, bitmap: &Bitmap, plane: Plane) -> (same: bool)
    ensures
        same == forall|p: Voxel| seq_covers(runs@, p) == bitmap.holds(plane, p),
{
    let mut drawn = Bitmap::new();
    let mut i: usize = 0;
    while i < runs.len()
        invariant
            i <= runs@.len(),
            forall|j: int| 0 <= j < i ==> (#[trigger] runs@[j]).region().in_chunk(),
            forall|u: int, v: int, w: int| #[trigger]
                drawn.cell(u, v, w) == any_selected(runs@, i as int, None, plane.lift(u, v, w)),
        decreases runs@.len() - i,
    {
        let run = runs[i];
        let ghost before = drawn;
        if build_bitmap(&mut drawn, run.start, run.extent, plane, false).is_err() {
            proof {
                let far = runs@[i as int].region().hi;
                crate::location::lemma_view_in_chunk(run.start);
                crate::location::lemma_view_in_chunk(run.extent);
                assert(runs@[i as int].region().contains(far));
                assert(seq_covers(runs@, far));
                assert(!far.in_chunk());
                assert(!bitmap.holds(plane, far));
            }
            return false;
        }
        proof {
            assert forall|u: int, v: int, w: int| #[trigger]
                drawn.cell(u, v, w) == any_selected(
                    runs@,
                    i as int + 1,
                    None,
                    plane.lift(u, v, w),
                ) by {
                let p = plane.lift(u, v, w);
                assert(before.cell(u, v, w) == any_selected(runs@, i as int, None, p));
                if any_selected(runs@, i as int + 1, None, p) {
                    let j = choose|j: int|
                        0 <= j < i + 1 && crate::store::run_selected(None, #[trigger] runs@[j], p);
                    if j < i {
                        assert(any_selected(runs@, i as int, None, p));
                    }
                }
                if crate::store::run_selected(None, runs@[i as int], p) {
                    assert(any_selected(runs@, i as int + 1, None, p));
                }
            }
        }
        i = i + 1;
    }
    proof {
        assert forall|p: Voxel|
            seq_covers(runs@, p) == #[trigger] drawn.holds(plane, p) by {
            assert(plane.lift(plane.u(p), plane.v(p), plane.w(p)) == p);
            assert(drawn.cell(plane.u(p), plane.v(p), plane.w(p)) == any_selected(
                runs@,
                runs@.len() as int,
                None,
                p,
            ));
            if seq_covers(runs@, p) {
                let j = choose|j: int|
                    0 <= j < runs@.len() && (#[trigger] runs@[j]).region().contains(p);
                assert(crate::store::run_selected(None, runs@[j], p));
            }
            if any_selected(runs@, runs@.len() as int, None, p) {
                let j = choose|j: int|
                    0 <= j < runs@.len() && crate::store::run_selected(None, #[trigger] runs@[j], p);
                assert(runs@[j].region().contains(p));
            }
        }
    }
    let mut w: usize = 0;
    while w < 32
        invariant
            w <= 32,
            forall|p: Voxel| seq_covers(runs@, p) == #[trigger] drawn.holds(plane, p),
            forall|v2: int, w2: int|
                0 <= v2 < 32 && 0 <= w2 < w ==> #[trigger] drawn.row(v2, w2) == bitmap.row(v2, w2),
        decreases 32 - w,
    {
        let mut v: usize = 0;
        while v < 32
            invariant
                w < 32,
                v <= 32,
                forall|p: Voxel| seq_covers(runs@, p) == #[trigger] drawn.holds(plane, p),
                forall|v2: int, w2: int|
                    0 <= v2 < 32 && (0 <= w2 < w || (w2 == w && v2 < v)) ==> #[trigger] drawn.row(
                        v2,
                        w2,
                    ) == bitmap.row(v2, w2),
            decreases 32 - v,
        {
            if drawn.get_row(v, w) != bitmap.get_row(v, w) {
                proof {
                    let u = lemma_words_differ(drawn.row(v as int, w as int), bitmap.row(v as int, w as int));
                    let p = plane.lift(u, v as int, w as int);
                    assert(plane.u(p) == u && plane.v(p) == v && plane.w(p) == w);
                    assert(drawn.holds(plane, p) != bitmap.holds(plane, p));
                }
                return false;
            }
            v = v + 1;
        }
        w = w + 1;
    }
    proof {
        assert forall|p: Voxel| seq_covers(runs@, p) == bitmap.holds(plane, p) by {
            assert(seq_covers(runs@, p) == drawn.holds(plane, p));
            let (u, v, w) = (plane.u(p), plane.v(p), plane.w(p));
            if 0 <= v < 32 && 0 <= w < 32 {
                assert(drawn.row(v, w) == bitmap.row(v, w));
            }
        }
    }
    true
}

/// Whether `run` is the run of `kind`, one voxel thick, that rectangle `r`
/// of an `XY` layer stands for.
pub open spec fn is_layer_run(run: Run, r: Rect, kind: VoxelKind) -> bool {
    &&& run.kind == kind
    &&& run.start.wf()
    &&& run.extent.wf()
    &&& run.start@ == (Voxel { x: r.u as int, y: r.v as int, z: r.w as int })
    &&& run.extent@ == (Voxel { x: r.du as int, y: r.dv as int, z: 0 })
}

/// Whether `runs` are, one for one and in order, the rectangles that greedy
/// extraction cuts out of the `XY` bitmap of `kind`.
pub open spec fn greedy_cut(
    runs: Seq<Run>,
    kind: VoxelKind,
    m: Map<u16, (VoxelKind, PackedXYZ32)>,
    deltas: Seq<DeltaEntry>,
) -> bool {
    exists|rects: Seq<Rect>, xy: Bitmap|
        {
            &&& #[trigger] is_partition(rects, xy)
            &&& is_greedy(rects, xy)
            &&& shows(xy, Plane::XY, Some(kind), m, deltas)
            &&& runs.len() == rects.len()
            &&& forall|i: int|
                0 <= i < runs.len() ==> is_layer_run(#[trigger] runs[i], rects[i], kind)
        }
}

/// The greedy cut of a kind is unique: what the store, the edits and the
/// kind are fixes the runs and their order.
pub proof fn lemma_greedy_runs_unique(
    first: Seq<Run>,
    second: Seq<Run>,
    kind: VoxelKind,
    m: Map<u16, (VoxelKind, PackedXYZ32)>,
    deltas: Seq<DeltaEntry>,
)
    requires
        greedy_cut(first, kind, m, deltas),
        greedy_cut(second, kind, m, deltas),
    ensures
        first == second,
{
    let (rects1, xy1) = choose|rects: Seq<Rect>, xy: Bitmap|
        {
            &&& #[trigger] is_partition(rects, xy)
            &&& is_greedy(rects, xy)
            &&& shows(xy, Plane::XY, Some(kind), m, deltas)
            &&& first.len() == rects.len()
            &&& forall|i: int|
                0 <= i < first.len() ==> is_layer_run(#[trigger] first[i], rects[i], kind)
        };
    let (rects2, xy2) = choose|rects: Seq<Rect>, xy: Bitmap|
        {
            &&& #[trigger] is_partition(rects, xy)
            &&& is_greedy(rects, xy)
            &&& shows(xy, Plane::XY, Some(kind), m, deltas)
            &&& second.len() == rects.len()
            &&& forall|i: int|
                0 <= i < second.len() ==> is_layer_run(#[trigger] second[i], rects[i], kind)
        };
    assert forall|u: int, v: int, w: int| #[trigger] xy2.cell(u, v, w) == xy1.cell(u, v, w) by {}
    crate::greedy::lemma_greedy_cut_of_same_cells(rects2, xy2, xy1);
    crate::greedy::lemma_greedy_cut_unique(rects1, rects2, xy1);
    assert forall|i: int| 0 <= i < first.len() implies first[i] == second[i] by {
        assert(is_layer_run(first[i], rects1[i], kind));
        assert(is_layer_run(second[i], rects2[i], kind));
        crate::location::lemma_view_injective(first[i].start, second[i].start);
        crate::location::lemma_view_injective(first[i].extent, second[i].extent);
    }
    assert(first =~= second);
}

/// The run, one voxel thick, that a rectangle of an `XY` layer stands for.
fn layer_run(r: Rect, kind: VoxelKind) -> (run: Run)
    requires
        r.in_grid(),
    ensures
        is_layer_run(run, r, kind),
        run.kind == kind,
        run.region().in_chunk(),
        forall|p: Voxel| #[trigger] run.region().contains(p) == r.has(p.x, p.y, p.z),
{
    let start = PackedXYZ32::encode(r.u, r.v, r.w).unwrap();
    let extent = PackedXYZ32::encode(r.du, r.dv, 0).unwrap();
    Run { start, kind, extent }
}

/// The runs of one kind after the pending edits: the voxels that hold `kind`
/// once every edit is applied, cut greedily into boxes one voxel thick.
///
/// Fails if any pending edit reaches outside the chunk.
pub fn encode_kind(kind: &VoxelKind, store: &VoxelRunStore, deltas: &Vec<DeltaEntry>) -> (r: Result<
    Vec<Run>,
    ChunkError,
>)
    ensures
        r is Ok <==> all_fit(deltas@),
        r is Ok ==> decodes(r->Ok_0@, *kind, store@, deltas@),
        r is Ok ==> greedy_cut(r->Ok_0@, *kind, store@, deltas@),
        r is Err ==> r->Err_0 == ChunkError::CoordinateOutOfRange,
{
    let xy = match project(store, deltas, Some(*kind), Plane::XY) {
        Ok(bitmap) => bitmap,
        Err(e) => {
            return Err(e);
        },
    };
    let rects = extract_rectangles(&xy);
    let mut runs: Vec<Run> = Vec::new();
    let mut i: usize = 0;
    while i < rects.len()
        invariant
            i <= rects@.len(),
            runs@.len() == i,
            is_partition(rects@, xy),
            forall|j: int| 0 <= j < i ==> is_layer_run(#[trigger] runs@[j], rects@[j], *kind),
            forall|j: int| 0 <= j < i ==> (#[trigger] runs@[j]).kind == *kind,
            forall|j: int| 0 <= j < i ==> (#[trigger] runs@[j]).region().in_chunk(),
            forall|j: int, p: Voxel|
                0 <= j < i ==> #[trigger] runs@[j].region().contains(p) == rects@[j].has(
                    p.x,
                    p.y,
                    p.z,
                ),
        decreases rects@.len() - i,
    {
        runs.push(layer_run(rects[i], *kind));
        i = i + 1;
    }
    proof {
        use_type_invariant(store);
        let m = store@;
        assert(is_partition(rects@, xy) && is_greedy(rects@, xy));
        assert forall|p: Voxel| #[trigger]
            seq_covers(runs@, p) == (voxel_at(m, deltas@, p) == Some(*kind)) by {
            assert(Plane::XY.lift(p.x, p.y, p.z) == p);
            assert(xy.cell(p.x, p.y, p.z) == claimed(rects@, p.x, p.y, p.z));
            if seq_covers(runs@, p) {
                let j = choose|j: int|
                    0 <= j < runs@.len() && (#[trigger] runs@[j]).region().contains(p);
                assert(rects@[j].has(p.x, p.y, p.z));
            }
            if claimed(rects@, p.x, p.y, p.z) {
                let j = choose|j: int|
                    0 <= j < rects@.len() && (#[trigger] rects@[j]).has(p.x, p.y, p.z);
                assert(runs@[j].region().contains(p));
            }
            if voxel_at(m, deltas@, p) == Some(*kind) {
                lemma_content_in_chunk(m, deltas@, p);
            }
        }
        assert(seq_disjoint(runs@)) by {
            assert forall|a: int, b: int, p: Voxel|
                #![trigger runs@[a].region().contains(p), runs@[b].region().contains(p)]
                0 <= a < b < runs@.len() implies !(runs@[a].region().contains(p)
                && runs@[b].region().contains(p)) by {
                assert(runs@[a].region().contains(p) == rects@[a].has(p.x, p.y, p.z));
                assert(runs@[b].region().contains(p) == rects@[b].has(p.x, p.y, p.z));
            }
        }
    }
    Ok(runs)
}

/// Whether `run` is filed in the store under its key.
pub open spec fn files(merged: Map<u16, (VoxelKind, PackedXYZ32)>, run: Run) -> bool {
    merged.contains_key(run.key()) && merged[run.key()] == (run.kind, run.extent)
}

/// Whether some voxel holds `kind`.
pub open spec fn kind_occurs(
    kind: VoxelKind,
    m: Map<u16, (VoxelKind, PackedXYZ32)>,
    deltas: Seq<DeltaEntry>,
) -> bool {
    exists|p: Voxel| #[trigger] voxel_at(m, deltas, p) == Some(kind)
}

/// Whether the store files every run of a greedy cut of `kind`.
pub open spec fn cut_filed(
    merged: Map<u16, (VoxelKind, PackedXYZ32)>,
    kind: VoxelKind,
    m: Map<u16, (VoxelKind, PackedXYZ32)>,
    deltas: Seq<DeltaEntry>,
) -> bool {
    exists|runs: Seq<Run>|
        #[trigger] greedy_cut(runs, kind, m, deltas) && forall|j: int|
            0 <= j < runs.len() ==> files(merged, #[trigger] runs[j])
}

/// Whether the run filed under `key` belongs to a greedy cut of its kind.
pub open spec fn filed_from_cut(
    merged: Map<u16, (VoxelKind, PackedXYZ32)>,
    key: u16,
    m: Map<u16, (VoxelKind, PackedXYZ32)>,
    deltas: Seq<DeltaEntry>,
) -> bool {
    exists|runs: Seq<Run>, j: int|
        #[trigger] greedy_cut(runs, merged[key].0, m, deltas) && 0 <= j < runs.len() && (
        #[trigger] runs[j]).key() == key && runs[j].extent == merged[key].1
}

/// Whether the store holds the greedy cuts and nothing else: for every kind
/// that some voxel holds, the runs that greedy extraction cuts out of the
/// kind's `XY` bitmap are filed, and every filed run is one of those.
pub open spec fn holds_greedy_cuts(
    merged: Map<u16, (VoxelKind, PackedXYZ32)>,
    m: Map<u16, (VoxelKind, PackedXYZ32)>,
    deltas: Seq<DeltaEntry>,
) -> bool {
    &&& forall|kind: VoxelKind| #[trigger]
        kind_occurs(kind, m, deltas) ==> cut_filed(merged, kind, m, deltas)
    &&& forall|key: u16| #[trigger]
        merged.contains_key(key) ==> filed_from_cut(merged, key, m, deltas)
}

/// Whether every run of a greedy cut of `kind` is among `all`.
spec fn cut_gathered(
    all: Seq<Run>,
    kind: VoxelKind,
    m: Map<u16, (VoxelKind, PackedXYZ32)>,
    deltas: Seq<DeltaEntry>,
) -> bool {
    exists|runs: Seq<Run>|
        #[trigger] greedy_cut(runs, kind, m, deltas) && forall|j: int|
            0 <= j < runs.len() ==> among(all, #[trigger] runs[j])
}

/// Whether `run` is one of `all`.
spec fn among(all: Seq<Run>, run: Run) -> bool {
    exists|i: int| 0 <= i < all.len() && #[trigger] all[i] == run
}

/// Whether `run` belongs to a greedy cut of its kind.
spec fn in_cut(run: Run, m: Map<u16, (VoxelKind, PackedXYZ32)>, deltas: Seq<DeltaEntry>) -> bool {
    exists|runs: Seq<Run>, j: int|
        #[trigger] greedy_cut(runs, run.kind, m, deltas) && 0 <= j < runs.len() && #[trigger] runs[j]
            == run
}

/// What holds of the runs gathered so far, once the first `done` kinds were
/// worked on: the runs are disjoint boxes inside the chunk, each holds only
/// voxels of its own kind, which is one of those kinds, and every voxel of
/// one of those kinds belongs to a run.
spec fn gathered(
    all: Seq<Run>,
    kinds: Seq<VoxelKind>,
    done: int,
    m: Map<u16, (VoxelKind, PackedXYZ32)>,
    deltas: Seq<DeltaEntry>,
) -> bool {
    &&& seq_in_chunk(all)
    &&& seq_disjoint(all)
    &&& forall|i: int|
        0 <= i < all.len() ==> exists|b: int|
            0 <= b < done && #[trigger] kinds[b] == (#[trigger] all[i]).kind
    &&& forall|i: int, p: Voxel|
        0 <= i < all.len() && #[trigger] all[i].region().contains(p) ==> voxel_at(m, deltas, p)
            == Some(all[i].kind)
    &&& forall|b: int, p: Voxel|
        0 <= b < done && voxel_at(m, deltas, p) == Some(#[trigger] kinds[b]) ==> #[trigger] seq_covers(
            all,
            p,
        )
    &&& forall|b: int| 0 <= b < done ==> cut_gathered(all, #[trigger] kinds[b], m, deltas)
    &&& forall|i: int| 0 <= i < all.len() ==> in_cut(#[trigger] all[i], m, deltas)
}

proof fn lemma_gather_kind(
    all: Seq<Run>,
    more: Seq<Run>,
    kinds: Seq<VoxelKind>,
    done: int,
    m: Map<u16, (VoxelKind, PackedXYZ32)>,
    deltas: Seq<DeltaEntry>,
)
    requires
        0 <= done < kinds.len(),
        kinds.no_duplicates(),
        gathered(all, kinds, done, m, deltas),
        decodes(more, kinds[done], m, deltas),
        greedy_cut(more, kinds[done], m, deltas),
    ensures
        gathered(all + more, kinds, done + 1, m, deltas),
{
    let next = all + more;
    let n = all.len() as int;
    assert forall|b: int| 0 <= b < done + 1 implies cut_gathered(
        next,
        #[trigger] kinds[b],
        m,
        deltas,
    ) by {
        if b < done {
            assert(cut_gathered(all, kinds[b], m, deltas));
            let runs = choose|runs: Seq<Run>|
                #[trigger] greedy_cut(runs, kinds[b], m, deltas) && forall|j: int|
                    0 <= j < runs.len() ==> among(all, #[trigger] runs[j]);
            assert forall|j: int| 0 <= j < runs.len() implies among(next, #[trigger] runs[j]) by {
                assert(among(all, runs[j]));
                let i = choose|i: int| 0 <= i < all.len() && #[trigger] all[i] == runs[j];
                assert(next[i] == runs[j]);
            }
        } else {
            assert forall|j: int| 0 <= j < more.len() implies among(next, #[trigger] more[j]) by {
                assert(next[n + j] == more[j]);
            }
        }
    }
    assert forall|i: int| 0 <= i < next.len() implies in_cut(#[trigger] next[i], m, deltas) by {
        if i < n {
            assert(next[i] == all[i]);
            assert(in_cut(all[i], m, deltas));
        } else {
            assert(next[i] == more[i - n]);
            assert(more[i - n].kind == kinds[done]);
        }
    }
    assert forall|i: int| 0 <= i < next.len() implies exists|b: int|
        0 <= b < done + 1 && #[trigger] kinds[b] == (#[trigger] next[i]).kind by {
        if i < n {
            let b = choose|b: int| 0 <= b < done && #[trigger] kinds[b] == all[i].kind;
            assert(kinds[b] == next[i].kind);
        } else {
            assert(next[i] == more[i - n]);
            assert(kinds[done] == next[i].kind);
        }
    }
    assert forall|i: int, p: Voxel|
        0 <= i < next.len() && #[trigger] next[i].region().contains(p) implies voxel_at(
        m,
        deltas,
        p,
    ) == Some(next[i].kind) by {
        if i < n {
            assert(all[i].region().contains(p));
        } else {
            assert(more[i - n].region().contains(p));
            assert(seq_covers(more, p));
        }
    }
    assert forall|i: int| 0 <= i < next.len() implies (#[trigger] next[i]).region().in_chunk() by {
        if i < n {
            assert(all[i].region().in_chunk());
        } else {
            assert(more[i - n].region().in_chunk());
        }
    }
    assert forall|i: int, j: int, p: Voxel|
        #![trigger next[i].region().contains(p), next[j].region().contains(p)]
        0 <= i < j < next.len() implies !(next[i].region().contains(p) && next[j].region().contains(
        p,
    )) by {
        if next[i].region().contains(p) && next[j].region().contains(p) {
            if j < n {
                assert(all[i].region().contains(p) && all[j].region().contains(p));
            } else if i >= n {
                assert(more[i - n].region().contains(p) && more[j - n].region().contains(p));
            } else {
                assert(all[i].region().contains(p));
                assert(more[j - n].region().contains(p));
                assert(seq_covers(more, p));
                let b = choose|b: int| 0 <= b < done && #[trigger] kinds[b] == all[i].kind;
                assert(kinds[b] == kinds[done]);
            }
        }
    }
    assert forall|b: int, p: Voxel|
        0 <= b < done + 1 && voxel_at(m, deltas, p) == Some(
            #[trigger] kinds[b],
        ) implies #[trigger] seq_covers(next, p) by {
        if b < done {
            assert(seq_covers(all, p));
            let i = choose|i: int| 0 <= i < all.len() && (#[trigger] all[i]).region().contains(p);
            assert(next[i].region().contains(p));
        } else {
            assert(seq_covers(more, p));
            let i = choose|i: int| 0 <= i < more.len() && (#[trigger] more[i]).region().contains(p);
            assert(next[n + i] == more[i]);
            assert(next[n + i].region().contains(p));
        }
    }
}

/// The runs of one kind, or why they could not be had.
pub type KindRuns = Result<Vec<Run>, ChunkError>;

/// What `encode_kind` promises of its result.
spec fn encoded(
    r: KindRuns,
    kind: VoxelKind,
    m: Map<u16, (VoxelKind, PackedXYZ32)>,
    deltas: Seq<DeltaEntry>,
) -> bool {
    match r {
        Ok(runs) => all_fit(deltas) && decodes(runs@, kind, m, deltas) && greedy_cut(
            runs@,
            kind,
            m,
            deltas,
        ),
        Err(_) => !all_fit(deltas),
    }
}

/// Folds the pending edits into a fresh store.
///
/// The new store holds, at every voxel, what the old store and the edits
/// together say the voxel holds: the last edit that touches it decides, and
/// an untouched voxel keeps what was stored. The kinds are worked on in
/// parallel.
///
/// Fails if any pending edit reaches outside the chunk.
pub fn merge(store: &VoxelRunStore, deltas: &Vec<DeltaEntry>) -> (r: Result<
    VoxelRunStore,
    ChunkError,
>)
    ensures
        r is Ok <==> all_fit(deltas@),
        r is Ok ==> r->Ok_0.wf() && forall|p: Voxel| #[trigger]
            r->Ok_0.kind_at(p) == voxel_at(store@, deltas@, p),
        r is Ok ==> holds_greedy_cuts(r->Ok_0@, store@, deltas@),
        r is Err ==> r->Err_0 == ChunkError::CoordinateOutOfRange,
{
    if !all_in_chunk(deltas) {
        return Err(ChunkError::CoordinateOutOfRange);
    }
    let stored = store.runs();
    let kinds = kinds_present(&stored, deltas);
    let ghost m = store@;
    let per_kind = par_map(
        &kinds,
        |kind: &VoxelKind| -> (r: KindRuns)
            ensures
                encoded(r, *kind, m, deltas@),
            { encode_kind(kind, store, deltas) }
    );
    let mut all: Vec<Run> = Vec::new();
    let mut a: usize = 0;
    while a < kinds.len()
        invariant
            a <= kinds@.len(),
            per_kind@.len() == kinds@.len(),
            kinds@.no_duplicates(),
            all_fit(deltas@),
            forall|i: int|
                0 <= i < kinds@.len() ==> encoded(#[trigger] per_kind@[i], kinds@[i], m, deltas@),
            gathered(all@, kinds@, a as int, m, deltas@),
        decreases kinds@.len() - a,
    {
        let ghost before = all@;
        match &per_kind[a] {
            Ok(more) => {
                append(&mut all, more);
                proof {
                    lemma_gather_kind(before, more@, kinds@, a as int, m, deltas@);
                }
            },
            Err(e) => {
                return Err(*e);
            },
        }
        a = a + 1;
    }
    let merged = VoxelRunStore::from_runs(&all);
    proof {
        assert forall|p: Voxel| #[trigger] merged.kind_at(p) == voxel_at(m, deltas@, p) by {
            if voxel_at(m, deltas@, p) is Some {
                lemma_content_is_present(stored@, m, deltas@, p);
                let kind = voxel_at(m, deltas@, p)->Some_0;
                assert(kinds@.contains(kind));
                let b = choose|b: int| 0 <= b < kinds@.len() && kinds@[b] == kind;
                assert(voxel_at(m, deltas@, p) == Some(kinds@[b]));
                assert(seq_covers(all@, p));
            }
            if seq_covers(all@, p) {
                let i = choose|i: int| 0 <= i < all@.len() && (#[trigger] all@[i]).region().contains(p);
                lemma_listed_run_decides(all@, merged@, i, p);
            } else if stored_kind(merged@, p) is Some {
                let j = lemma_stored_kind_is_listed(all@, merged@, p);
                assert(seq_covers(all@, p));
            }
        }
        assert forall|kind: VoxelKind| #[trigger] kind_occurs(kind, m, deltas@) implies cut_filed(
            merged@,
            kind,
            m,
            deltas@,
        ) by {
            let p = choose|p: Voxel| #[trigger] voxel_at(m, deltas@, p) == Some(kind);
            lemma_content_is_present(stored@, m, deltas@, p);
            assert(kinds@.contains(kind));
            let b = choose|b: int| 0 <= b < kinds@.len() && kinds@[b] == kind;
            assert(cut_gathered(all@, kinds@[b], m, deltas@));
            let runs = choose|runs: Seq<Run>|
                #[trigger] greedy_cut(runs, kind, m, deltas@) && forall|j: int|
                    0 <= j < runs.len() ==> among(all@, #[trigger] runs[j]);
            assert forall|j: int| 0 <= j < runs.len() implies files(merged@, #[trigger] runs[j]) by {
                assert(among(all@, runs[j]));
                let i = choose|i: int| 0 <= i < all@.len() && #[trigger] all@[i] == runs[j];
                assert(all@[i] == runs[j]);
            }
        }
        assert forall|key: u16| #[trigger] merged@.contains_key(key) implies filed_from_cut(
            merged@,
            key,
            m,
            deltas@,
        ) by {
            let i = choose|i: int| 0 <= i < all@.len() && (#[trigger] all@[i]).key() == key;
            assert(merged@[key] == (all@[i].kind, all@[i].extent));
            assert(in_cut(all@[i], m, deltas@));
            let (runs, j) = choose|runs: Seq<Run>, j: int|
                #[trigger] greedy_cut(runs, all@[i].kind, m, deltas@) && 0 <= j < runs.len()
                    && #[trigger] runs[j] == all@[i];
            assert(greedy_cut(runs, merged@[key].0, m, deltas@));
            assert(runs[j].key() == key && runs[j].extent == merged@[key].1);
        }
    }
    Ok(merged)
}

} // verus!
