//! The binary greedy mesher: the visible faces of a chunk, merged into quads.
//!
//! A voxel shows a face towards a neighbour that holds nothing. Faces are
//! found a row at a time: along a plane, the occupancy words of two adjacent
//! layers are combined with XOR, which marks the cells where occupancy
//! changes from one layer to the next, and the result is masked with the
//! cells of the kind at hand. The faces of one kind that lie in one layer and
//! look the same way are then merged into rectangles, greedily.
//!
//! Faces on the border of the chunk are always shown: what a neighbouring
//! chunk holds is not consulted.

use vstd::prelude::*;
use crate::bitmap::{Bitmap, Plane};
use crate::bits::{lemma_bit_and, lemma_bit_xor, lemma_bit_zero};
use crate::block::VoxelKind;
use crate::delta::{all_fit, all_in_chunk, DeltaEntry};
use crate::error::ChunkError;
use crate::greedy::{claimed, extract_rectangles, is_greedy, is_partition, Rect};
use crate::location::PackedXYZ32;
use crate::merge::{
    append, kinds_present, kinds_seen, lemma_content_in_chunk, lemma_content_is_present, par_map,
};
use crate::projector::{in_grid, project, shows, voxel_at};
use crate::store::{lists_once, runs_wf, Run, VoxelRunStore};

verus! {

/// Which faces a quad is made of: those of voxels of `kind`, lying between
/// two layers of `plane`, looking towards the next layer (`toward_high`) or
/// towards the previous one.
pub struct Side {
    pub kind: VoxelKind,
    pub plane: Plane,
    pub toward_high: bool,
}

/// A rectangle of faces of one kind that look the same way.
///
/// `rect` names the voxels whose faces these are, as cells of a layer of
/// `plane`. For `XY` a quad lies in a plane of constant `z`, for `YZ` of
/// constant `x`, for `XZ` of constant `y`.
#[derive(Clone, Copy, Debug, PartialEq, Eq, Structural)]
pub struct Quad {
    pub kind: VoxelKind,
    pub plane: Plane,
    pub toward_high: bool,
    pub rect: Rect,
}

impl Quad {
    /// The side whose faces the quad is made of.
    pub open spec fn side(self) -> Side {
        Side { kind: self.kind, plane: self.plane, toward_high: self.toward_high }
    }
}

/// The layer that a face of layer `w` looks at.
pub open spec fn facing(w: int, toward_high: bool) -> int {
    if toward_high {
        w + 1
    } else {
        w - 1
    }
}

/// Whether the voxel at cell `(u, v, w)` of `side.plane` holds `side.kind`
/// and shows a face in the direction of `side`: the neighbour on that side
/// holds nothing, or lies outside the chunk.
pub open spec fn is_face(
    m: Map<u16, (VoxelKind, PackedXYZ32)>,
    deltas: Seq<DeltaEntry>,
    side: Side,
    u: int,
    v: int,
    w: int,
) -> bool {
    &&& in_grid(u, v, w)
    &&& voxel_at(m, deltas, side.plane.lift(u, v, w)) == Some(side.kind)
    &&& voxel_at(m, deltas, side.plane.lift(u, v, facing(w, side.toward_high))) is None
}

/// The faces between adjacent layers: a cell of the result is occupied when
/// it is occupied in `bits` and occupancy in `solid` differs between the cell
/// and the one it faces in the next layer (`toward_high`) or the previous
/// one. Beyond the first and the last layer nothing is occupied.
pub fn face_layers(bits: &Bitmap, solid: &Bitmap, toward_high: bool) -> (faces: Bitmap)
    ensures
        forall|u: int, v: int, w: int| #[trigger]
            faces.cell(u, v, w) == (bits.cell(u, v, w) && (solid.cell(u, v, w) != solid.cell(
                u,
                v,
                facing(w, toward_high),
            ))),
{
    let mut faces = Bitmap::new();
    let mut w: usize = 0;
    while w < 32
        invariant
            w <= 32,
            forall|v2: int, w2: int|
                0 <= v2 < 32 && 0 <= w2 < w ==> #[trigger] faces.row(v2, w2) == bits.row(v2, w2) & (
                solid.row(v2, w2) ^ beyond(*solid, v2, facing(w2, toward_high))),
        decreases 32 - w,
    {
        let mut v: usize = 0;
        while v < 32
            invariant
                w < 32,
                v <= 32,
                forall|v2: int, w2: int|
                    0 <= v2 < 32 && (0 <= w2 < w || (w2 == w && v2 < v)) ==> #[trigger] faces.row(
                        v2,
                        w2,
                    ) == bits.row(v2, w2) & (solid.row(v2, w2) ^ beyond(
                        *solid,
                        v2,
                        facing(w2, toward_high),
                    )),
            decreases 32 - v,
        {
            let next: u32 = if toward_high {
                if w < 31 {
                    solid.get_row(v, w + 1)
                } else {
                    0
                }
            } else {
                if w > 0 {
                    solid.get_row(v, w - 1)
                } else {
                    0
                }
            };
            let here = solid.get_row(v, w);
            faces.set_row(v, w, bits.get_row(v, w) & (here ^ next));
            v = v + 1;
        }
        w = w + 1;
    }
    proof {
        assert forall|u: int, v: int, w: int| #[trigger]
            faces.cell(u, v, w) == (bits.cell(u, v, w) && (solid.cell(u, v, w) != solid.cell(
                u,
                v,
                facing(w, toward_high),
            ))) by {
            if 0 <= v < 32 && 0 <= w < 32 {
                let next = beyond(*solid, v, facing(w, toward_high));
                lemma_bit_and(bits.row(v, w), solid.row(v, w) ^ next, u);
                lemma_bit_xor(solid.row(v, w), next, u);
                lemma_bit_zero(u);
            }
        }
    }
    faces
}

/// Whether `q` is made of faces of `side` and holds the face of cell
/// `(u, v, w)`.
pub open spec fn quad_shows(q: Quad, side: Side, u: int, v: int, w: int) -> bool {
    q.side() == side && q.rect.has(u, v, w)
}

/// Whether one of `quads` holds the face of cell `(u, v, w)` on `side`.
pub open spec fn shown(quads: Seq<Quad>, side: Side, u: int, v: int, w: int) -> bool {
    exists|i: int| 0 <= i < quads.len() && quad_shows(#[trigger] quads[i], side, u, v, w)
}

/// Whether no face belongs to two of `quads`.
pub open spec fn quads_disjoint(quads: Seq<Quad>) -> bool {
    forall|i: int, j: int, u: int, v: int, w: int|
        #![trigger quads[i].rect.has(u, v, w), quads[j].rect.has(u, v, w)]
        0 <= i < j < quads.len() && quads[i].side() == quads[j].side() ==> !(quads[i].rect.has(
            u,
            v,
            w,
        ) && quads[j].rect.has(u, v, w))
}

/// Whether a quad is made of faces of `side`.
pub open spec fn on_side(side: Side) -> spec_fn(Quad) -> bool {
    |q: Quad| q.side() == side
}

/// The rectangles of the quads of one side, in the order of the quads.
pub open spec fn side_rects(quads: Seq<Quad>, side: Side) -> Seq<Rect> {
    quads.filter(on_side(side)).map_values(|q: Quad| q.rect)
}

/// Whether the quads of `side` are, in order, the rectangles that greedy
/// extraction cuts out of the faces of that side.
pub open spec fn side_is_greedy(
    quads: Seq<Quad>,
    side: Side,
    m: Map<u16, (VoxelKind, PackedXYZ32)>,
    deltas: Seq<DeltaEntry>,
) -> bool {
    exists|faces: Bitmap|
        {
            &&& #[trigger] is_partition(side_rects(quads, side), faces)
            &&& is_greedy(side_rects(quads, side), faces)
            &&& forall|u: int, v: int, w: int| #[trigger]
                faces.cell(u, v, w) == is_face(m, deltas, side, u, v, w)
        }
}

/// The place of a plane in the order in which the planes are meshed.
pub open spec fn plane_rank(plane: Plane) -> int {
    match plane {
        Plane::XY => 0,
        Plane::YZ => 1,
        Plane::XZ => 2,
    }
}

/// Whether the quads of side `a` come no later than those of side `b`:
/// plane by plane, within a plane kind by kind in the order of `kinds`, and
/// for one kind those that look towards the previous layer first.
pub open spec fn side_before(a: Side, b: Side, kinds: Seq<VoxelKind>) -> bool {
    ||| plane_rank(a.plane) < plane_rank(b.plane)
    ||| a.plane == b.plane && a.kind == b.kind && (!a.toward_high || b.toward_high)
    ||| a.plane == b.plane && exists|x: int, y: int|
        0 <= x < y < kinds.len() && #[trigger] kinds[x] == a.kind && #[trigger] kinds[y] == b.kind
}

/// Whether the quads come side by side, the sides in the order that
/// `side_before` gives.
pub open spec fn in_side_order(quads: Seq<Quad>, kinds: Seq<VoxelKind>) -> bool {
    forall|i: int, j: int|
        0 <= i < j < quads.len() ==> side_before(
            (#[trigger] quads[i]).side(),
            (#[trigger] quads[j]).side(),
            kinds,
        )
}

/// Quads in side order followed by quads in side order are in side order if
/// every side of the first comes no later than every side of the second.
proof fn lemma_order_union(a: Seq<Quad>, b: Seq<Quad>, kinds: Seq<VoxelKind>)
    requires
        in_side_order(a, kinds),
        in_side_order(b, kinds),
        forall|i: int, j: int|
            0 <= i < a.len() && 0 <= j < b.len() ==> side_before(
                (#[trigger] a[i]).side(),
                (#[trigger] b[j]).side(),
                kinds,
            ),
    ensures
        in_side_order(a + b, kinds),
{
    let all = a + b;
    let n = a.len() as int;
    assert forall|i: int, j: int| 0 <= i < j < all.len() implies side_before(
        (#[trigger] all[i]).side(),
        (#[trigger] all[j]).side(),
        kinds,
    ) by {
        if j < n {
            assert(all[i] == a[i] && all[j] == a[j]);
        } else if i >= n {
            assert(all[i] == b[i - n] && all[j] == b[j - n]);
        } else {
            assert(all[i] == a[i] && all[j] == b[j - n]);
        }
    }
}

/// Whether `quads` are the visible faces of the chunk: every quad lies
/// inside the chunk, no face belongs to two quads, a face belongs to a quad
/// exactly when it is a visible face, and the quads of each side that shows
/// a face are the greedy cut of that side's faces.
pub open spec fn meshes(
    quads: Seq<Quad>,
    m: Map<u16, (VoxelKind, PackedXYZ32)>,
    deltas: Seq<DeltaEntry>,
) -> bool {
    &&& forall|i: int| 0 <= i < quads.len() ==> (#[trigger] quads[i]).rect.in_grid()
    &&& quads_disjoint(quads)
    &&& forall|side: Side, u: int, v: int, w: int| #[trigger]
        shown(quads, side, u, v, w) == is_face(m, deltas, side, u, v, w)
    &&& forall|side: Side, u: int, v: int, w: int| #[trigger]
        is_face(m, deltas, side, u, v, w) ==> side_is_greedy(quads, side, m, deltas)
}

/// What holds of the quads gathered so far, once the faces of `sides` were
/// worked on.
spec fn gathered(
    quads: Seq<Quad>,
    sides: Set<Side>,
    m: Map<u16, (VoxelKind, PackedXYZ32)>,
    deltas: Seq<DeltaEntry>,
) -> bool {
    &&& forall|i: int| 0 <= i < quads.len() ==> (#[trigger] quads[i]).rect.in_grid()
    &&& forall|i: int| 0 <= i < quads.len() ==> sides.contains((#[trigger] quads[i]).side())
    &&& quads_disjoint(quads)
    &&& forall|i: int, u: int, v: int, w: int|
        0 <= i < quads.len() && #[trigger] quads[i].rect.has(u, v, w) ==> is_face(
            m,
            deltas,
            quads[i].side(),
            u,
            v,
            w,
        )
    &&& forall|side: Side, u: int, v: int, w: int|
        sides.contains(side) && #[trigger] is_face(m, deltas, side, u, v, w) ==> shown(
            quads,
            side,
            u,
            v,
            w,
        )
    &&& forall|side: Side| #[trigger]
        sides.contains(side) ==> side_is_greedy(quads, side, m, deltas)
}

/// Filtering a sequence of which no item passes leaves nothing.
proof fn lemma_filter_none(quads: Seq<Quad>, side: Side)
    requires
        forall|i: int| 0 <= i < quads.len() ==> (#[trigger] quads[i]).side() != side,
    ensures
        quads.filter(on_side(side)) == Seq::<Quad>::empty(),
    decreases quads.len(),
{
    reveal(Seq::filter);
    if quads.len() > 0 {
        assert(quads.last() == quads[quads.len() - 1]);
        assert forall|i: int| 0 <= i < quads.drop_last().len() implies (
        #[trigger] quads.drop_last()[i]).side() != side by {
            assert(quads.drop_last()[i] == quads[i]);
        }
        lemma_filter_none(quads.drop_last(), side);
    }
}

/// Filtering a sequence of which every item passes leaves it as it is.
proof fn lemma_filter_all(quads: Seq<Quad>, side: Side)
    requires
        forall|i: int| 0 <= i < quads.len() ==> (#[trigger] quads[i]).side() == side,
    ensures
        quads.filter(on_side(side)) == quads,
    decreases quads.len(),
{
    reveal(Seq::filter);
    if quads.len() > 0 {
        assert(quads.last() == quads[quads.len() - 1]);
        assert forall|i: int| 0 <= i < quads.drop_last().len() implies (
        #[trigger] quads.drop_last()[i]).side() == side by {
            assert(quads.drop_last()[i] == quads[i]);
        }
        lemma_filter_all(quads.drop_last(), side);
        assert(quads.drop_last().push(quads.last()) =~= quads);
    } else {
        assert(quads.filter(on_side(side)) =~= quads);
    }
}

proof fn lemma_gather_union(
    a: Seq<Quad>,
    sa: Set<Side>,
    b: Seq<Quad>,
    sb: Set<Side>,
    m: Map<u16, (VoxelKind, PackedXYZ32)>,
    deltas: Seq<DeltaEntry>,
)
    requires
        gathered(a, sa, m, deltas),
        gathered(b, sb, m, deltas),
        sa.disjoint(sb),
    ensures
        gathered(a + b, sa.union(sb), m, deltas),
{
    let all = a + b;
    let n = a.len() as int;
    assert forall|i: int| 0 <= i < all.len() implies (#[trigger] all[i]).rect.in_grid()
        && sa.union(sb).contains(all[i].side()) by {
        if i < n {
            assert(all[i] == a[i]);
        } else {
            assert(all[i] == b[i - n]);
        }
    }
    assert forall|i: int, j: int, u: int, v: int, w: int|
        #![trigger all[i].rect.has(u, v, w), all[j].rect.has(u, v, w)]
        0 <= i < j < all.len() && all[i].side() == all[j].side() implies !(all[i].rect.has(u, v, w)
        && all[j].rect.has(u, v, w)) by {
        if j < n {
            assert(all[i] == a[i] && all[j] == a[j]);
            assert(!(a[i].rect.has(u, v, w) && a[j].rect.has(u, v, w)));
        } else if i >= n {
            assert(all[i] == b[i - n] && all[j] == b[j - n]);
            assert(!(b[i - n].rect.has(u, v, w) && b[j - n].rect.has(u, v, w)));
        } else {
            assert(all[i] == a[i] && all[j] == b[j - n]);
            assert(sa.contains(a[i].side()));
            assert(sb.contains(b[j - n].side()));
        }
    }
    assert forall|i: int, u: int, v: int, w: int|
        0 <= i < all.len() && #[trigger] all[i].rect.has(u, v, w) implies is_face(
        m,
        deltas,
        all[i].side(),
        u,
        v,
        w,
    ) by {
        if i < n {
            assert(a[i].rect.has(u, v, w));
        } else {
            assert(b[i - n].rect.has(u, v, w));
        }
    }
    assert forall|side: Side, u: int, v: int, w: int|
        sa.union(sb).contains(side) && #[trigger] is_face(m, deltas, side, u, v, w) implies shown(
        all,
        side,
        u,
        v,
        w,
    ) by {
        if sa.contains(side) {
            assert(shown(a, side, u, v, w));
            let i = choose|i: int| 0 <= i < a.len() && quad_shows(#[trigger] a[i], side, u, v, w);
            assert(quad_shows(all[i], side, u, v, w));
        } else {
            assert(shown(b, side, u, v, w));
            let i = choose|i: int| 0 <= i < b.len() && quad_shows(#[trigger] b[i], side, u, v, w);
            assert(all[n + i] == b[i]);
            assert(quad_shows(all[n + i], side, u, v, w));
        }
    }
    assert forall|side: Side| #[trigger] sa.union(sb).contains(side) implies side_is_greedy(
        all,
        side,
        m,
        deltas,
    ) by {
        Seq::filter_distributes_over_add(a, b, on_side(side));
        if sa.contains(side) {
            assert forall|i: int| 0 <= i < b.len() implies (#[trigger] b[i]).side() != side by {
                assert(sb.contains(b[i].side()));
            }
            lemma_filter_none(b, side);
            assert(a.filter(on_side(side)) + Seq::<Quad>::empty() =~= a.filter(on_side(side)));
            assert(side_rects(all, side) == side_rects(a, side));
            assert(side_is_greedy(a, side, m, deltas));
        } else {
            assert forall|i: int| 0 <= i < a.len() implies (#[trigger] a[i]).side() != side by {
                assert(sa.contains(a[i].side()));
            }
            lemma_filter_none(a, side);
            assert(Seq::<Quad>::empty() + b.filter(on_side(side)) =~= b.filter(on_side(side)));
            assert(side_rects(all, side) == side_rects(b, side));
            assert(side_is_greedy(b, side, m, deltas));
        }
    }
}

/// A cell of the face bitmap is occupied exactly when the voxel shows a
/// face.
proof fn lemma_face_cells(
    faces: Bitmap,
    bits: Bitmap,
    solid: Bitmap,
    side: Side,
    m: Map<u16, (VoxelKind, PackedXYZ32)>,
    deltas: Seq<DeltaEntry>,
    u: int,
    v: int,
    w: int,
)
    requires
        runs_wf(m),
        all_fit(deltas),
        shows(bits, side.plane, Some(side.kind), m, deltas),
        shows(solid, side.plane, None, m, deltas),
        faces.cell(u, v, w) == (bits.cell(u, v, w) && (solid.cell(u, v, w) != solid.cell(
            u,
            v,
            facing(w, side.toward_high),
        ))),
    ensures
        faces.cell(u, v, w) == is_face(m, deltas, side, u, v, w),
{
    let next = facing(w, side.toward_high);
    let q = side.plane.lift(u, v, next);
    assert(bits.cell(u, v, w) == (in_grid(u, v, w) && voxel_at(m, deltas, side.plane.lift(u, v, w))
        == Some(side.kind)));
    assert(solid.cell(u, v, w) == (in_grid(u, v, w) && voxel_at(
        m,
        deltas,
        side.plane.lift(u, v, w),
    ) is Some));
    assert(solid.cell(u, v, next) == (in_grid(u, v, next) && voxel_at(m, deltas, q) is Some));
    if voxel_at(m, deltas, q) is Some {
        lemma_content_in_chunk(m, deltas, q);
    }
}

/// The quads of one kind, one plane and one direction.
fn face_quads(
    bits: &Bitmap,
    solid: &Bitmap,
    kind: VoxelKind,
    plane: Plane,
    toward_high: bool,
    Ghost(m): Ghost<Map<u16, (VoxelKind, PackedXYZ32)>>,
    Ghost(deltas): Ghost<Seq<DeltaEntry>>,
) -> (quads: Vec<Quad>)
    requires
        runs_wf(m),
        all_fit(deltas),
        shows(*bits, plane, Some(kind), m, deltas),
        shows(*solid, plane, None, m, deltas),
    ensures
        gathered(quads@, set![Side { kind, plane, toward_high }], m, deltas),
{
    let faces = face_layers(bits, solid, toward_high);
    let rects = extract_rectangles(&faces);
    let ghost side = Side { kind, plane, toward_high };
    let mut quads: Vec<Quad> = Vec::new();
    let mut i: usize = 0;
    while i < rects.len()
        invariant
            i <= rects@.len(),
            quads@.len() == i,
            side == (Side { kind, plane, toward_high }),
            forall|j: int|
                0 <= j < i ==> (#[trigger] quads@[j]) == (Quad {
                    kind,
                    plane,
                    toward_high,
                    rect: rects@[j],
                }),
        decreases rects@.len() - i,
    {
        quads.push(Quad { kind, plane, toward_high, rect: rects[i] });
        i = i + 1;
    }
    proof {
        let sides = set![side];
        assert forall|j: int, u: int, v: int, w: int|
            0 <= j < quads@.len() && #[trigger] quads@[j].rect.has(u, v, w) implies is_face(
            m,
            deltas,
            quads@[j].side(),
            u,
            v,
            w,
        ) by {
            assert(rects@[j].has(u, v, w));
            assert(claimed(rects@, u, v, w));
            assert(faces.cell(u, v, w));
            lemma_face_cells(faces, *bits, *solid, side, m, deltas, u, v, w);
        }
        assert forall|s: Side, u: int, v: int, w: int|
            sides.contains(s) && #[trigger] is_face(m, deltas, s, u, v, w) implies shown(
            quads@,
            s,
            u,
            v,
            w,
        ) by {
            lemma_face_cells(faces, *bits, *solid, side, m, deltas, u, v, w);
            assert(faces.cell(u, v, w));
            assert(claimed(rects@, u, v, w));
            let j = choose|j: int| 0 <= j < rects@.len() && (#[trigger] rects@[j]).has(u, v, w);
            assert(quad_shows(quads@[j], s, u, v, w));
        }
        assert forall|a: int, b: int, u: int, v: int, w: int|
            #![trigger quads@[a].rect.has(u, v, w), quads@[b].rect.has(u, v, w)]
            0 <= a < b < quads@.len() && quads@[a].side() == quads@[b].side() implies !(
        quads@[a].rect.has(u, v, w) && quads@[b].rect.has(u, v, w)) by {
            assert(quads@[a].rect == rects@[a] && quads@[b].rect == rects@[b]);
            assert(!(rects@[a].has(u, v, w) && rects@[b].has(u, v, w)));
        }
        assert forall|j: int| 0 <= j < quads@.len() implies (#[trigger] quads@[j]).rect.in_grid()
            && sides.contains(quads@[j].side()) by {
            assert(rects@[j].in_grid());
        }
        lemma_filter_all(quads@, side);
        assert(side_rects(quads@, side) =~= rects@);
        assert forall|u: int, v: int, w: int| #[trigger]
            faces.cell(u, v, w) == is_face(m, deltas, side, u, v, w) by {
            lemma_face_cells(faces, *bits, *solid, side, m, deltas, u, v, w);
        }
        assert(is_partition(side_rects(quads@, side), faces));
        assert(side_is_greedy(quads@, side, m, deltas));
    }
    quads
}

/// The sides of one plane whose kind is among the first `done` of `kinds`.
spec fn plane_sides(kinds: Seq<VoxelKind>, done: int, plane: Plane) -> Set<Side> {
    Set::new(
        |s: Side| s.plane == plane && exists|b: int| 0 <= b < done && #[trigger] kinds[b] == s.kind,
    )
}

/// What `mesh_plane` promises of its result.
spec fn plane_meshed(
    r: PlaneQuads,
    kinds: Seq<VoxelKind>,
    plane: Plane,
    m: Map<u16, (VoxelKind, PackedXYZ32)>,
    deltas: Seq<DeltaEntry>,
) -> bool {
    match r {
        Ok(quads) => all_fit(deltas) && in_side_order(quads@, kinds) && gathered(
            quads@,
            plane_sides(kinds, kinds.len() as int, plane),
            m,
            deltas,
        ),
        Err(_) => !all_fit(deltas),
    }
}

/// The quads of one plane, or why they could not be had.
pub type PlaneQuads = Result<Vec<Quad>, ChunkError>;

/// The quads of every kind that lie between the layers of one plane.
fn mesh_plane(
    store: &VoxelRunStore,
    deltas: &Vec<DeltaEntry>,
    kinds: &Vec<VoxelKind>,
    plane: &Plane,
) -> (r: PlaneQuads)
    requires
        kinds@.no_duplicates(),
    ensures
        plane_meshed(r, kinds@, *plane, store@, deltas@),
{
    proof {
        use_type_invariant(store);
    }
    let ghost m = store@;
    let solid = match project(store, deltas, None, *plane) {
        Ok(bitmap) => bitmap,
        Err(e) => {
            return Err(e);
        },
    };
    let mut all: Vec<Quad> = Vec::new();
    let mut a: usize = 0;
    proof {
        assert(plane_sides(kinds@, 0, *plane) =~= Set::<Side>::empty());
    }
    while a < kinds.len()
        invariant
            a <= kinds@.len(),
            kinds@.no_duplicates(),
            runs_wf(m),
            m == store@,
            all_fit(deltas@),
            shows(solid, *plane, None, m, deltas@),
            gathered(all@, plane_sides(kinds@, a as int, *plane), m, deltas@),
            in_side_order(all@, kinds@),
        decreases kinds@.len() - a,
    {
        let kind = kinds[a];
        let bits = match project(store, deltas, Some(kind), *plane) {
            Ok(bitmap) => bitmap,
            Err(e) => {
                return Err(e);
            },
        };
        let low = face_quads(&bits, &solid, kind, *plane, false, Ghost(m), Ghost(deltas@));
        let high = face_quads(&bits, &solid, kind, *plane, true, Ghost(m), Ghost(deltas@));
        let ghost before = all@;
        let ghost done = plane_sides(kinds@, a as int, *plane);
        let ghost low_side = Side { kind, plane: *plane, toward_high: false };
        let ghost high_side = Side { kind, plane: *plane, toward_high: true };
        append(&mut all, &low);
        append(&mut all, &high);
        proof {
            assert(!done.contains(low_side) && !done.contains(high_side)) by {
                if done.contains(low_side) || done.contains(high_side) {
                    let b = choose|b: int| 0 <= b < a && #[trigger] kinds@[b] == kind;
                    assert(kinds@[b] == kinds@[a as int]);
                }
            }
            assert(in_side_order(low@, kinds@) && in_side_order(high@, kinds@)) by {
                assert forall|i: int| 0 <= i < low@.len() implies (#[trigger] low@[i]).side()
                    == low_side by {
                    assert(set![low_side].contains(low@[i].side()));
                }
                assert forall|i: int| 0 <= i < high@.len() implies (#[trigger] high@[i]).side()
                    == high_side by {
                    assert(set![high_side].contains(high@[i].side()));
                }
            }
            assert forall|i: int, j: int|
                0 <= i < before.len() && 0 <= j < low@.len() implies side_before(
                (#[trigger] before[i]).side(),
                (#[trigger] low@[j]).side(),
                kinds@,
            ) by {
                assert(done.contains(before[i].side()));
                assert(set![low_side].contains(low@[j].side()));
                let b = choose|b: int| 0 <= b < a && #[trigger] kinds@[b] == before[i].side().kind;
                assert(kinds@[b] == before[i].side().kind && kinds@[a as int] == low_side.kind);
            }
            lemma_order_union(before, low@, kinds@);
            assert forall|i: int, j: int|
                0 <= i < (before + low@).len() && 0 <= j < high@.len() implies side_before(
                (#[trigger] (before + low@)[i]).side(),
                (#[trigger] high@[j]).side(),
                kinds@,
            ) by {
                assert(set![high_side].contains(high@[j].side()));
                if i < before.len() {
                    assert((before + low@)[i] == before[i]);
                    assert(done.contains(before[i].side()));
                    let b = choose|b: int|
                        0 <= b < a && #[trigger] kinds@[b] == before[i].side().kind;
                    assert(kinds@[b] == before[i].side().kind && kinds@[a as int]
                        == high_side.kind);
                } else {
                    assert((before + low@)[i] == low@[i - before.len()]);
                    assert(set![low_side].contains(low@[i - before.len()].side()));
                }
            }
            lemma_order_union(before + low@, high@, kinds@);
            lemma_gather_union(before, done, low@, set![low_side], m, deltas@);
            lemma_gather_union(
                before + low@,
                done.union(set![low_side]),
                high@,
                set![high_side],
                m,
                deltas@,
            );
            assert(done.union(set![low_side]).union(set![high_side]) =~= plane_sides(
                kinds@,
                a as int + 1,
                *plane,
            )) by {
                assert forall|s: Side|
                    done.union(set![low_side]).union(set![high_side]).contains(s)
                        == plane_sides(kinds@, a as int + 1, *plane).contains(s) by {
                    if plane_sides(kinds@, a as int + 1, *plane).contains(s) {
                        let b = choose|b: int| 0 <= b < a + 1 && #[trigger] kinds@[b] == s.kind;
                        if b < a {
                            assert(done.contains(s));
                        } else {
                            assert(s == low_side || s == high_side);
                        }
                    }
                    if done.contains(s) {
                        let b = choose|b: int| 0 <= b < a && #[trigger] kinds@[b] == s.kind;
                        assert(kinds@[b] == s.kind);
                    }
                    if s == low_side || s == high_side {
                        assert(kinds@[a as int] == s.kind);
                    }
                }
            }
        }
        a = a + 1;
    }
    Ok(all)
}

/// Whether the quads come side by side in the order of meshing: plane by
/// plane (`XY`, `YZ`, `XZ`), within a plane kind by kind in the order in
/// which the kinds first appear in the stored runs and then in the edits,
/// and for each kind first the quads that look towards the previous layer.
pub open spec fn kind_order(
    quads: Seq<Quad>,
    m: Map<u16, (VoxelKind, PackedXYZ32)>,
    deltas: Seq<DeltaEntry>,
) -> bool {
    exists|runs: Seq<Run>|
        #[trigger] lists_once(runs, m) && in_side_order(
            quads,
            kinds_seen(runs, deltas, deltas.len() as int),
        )
}

/// The visible faces of a chunk, merged into quads.
///
/// The chunk is taken as it stands, pending edits included; nothing is
/// merged or changed. The three planes are worked on in parallel. The quads
/// come plane by plane (`XY`, `YZ`, `XZ`), within a plane kind by kind in the
/// order in which the kinds first appear, and for each kind first those that
/// look towards the previous layer, then those that look towards the next.
///
/// Fails if any pending edit reaches outside the chunk.
pub fn build_mesh(store: &VoxelRunStore, deltas: &Vec<DeltaEntry>) -> (r: Result<
    Vec<Quad>,
    ChunkError,
>)
    ensures
        r is Ok <==> all_fit(deltas@),
        r is Ok ==> meshes(r->Ok_0@, store@, deltas@),
        r is Ok ==> kind_order(r->Ok_0@, store@, deltas@),
        r is Err ==> r->Err_0 == ChunkError::CoordinateOutOfRange,
{
    if !all_in_chunk(deltas) {
        return Err(ChunkError::CoordinateOutOfRange);
    }
    proof {
        use_type_invariant(store);
    }
    let ghost m = store@;
    let stored = store.runs();
    let kinds = kinds_present(&stored, deltas);
    let mut planes: Vec<Plane> = Vec::new();
    planes.push(Plane::XY);
    planes.push(Plane::YZ);
    planes.push(Plane::XZ);
    let kinds_ref = &kinds;
    let per_plane = par_map(
        &planes,
        |plane: &Plane| -> (r: PlaneQuads)
            requires
                kinds_ref@.no_duplicates(),
            ensures
                plane_meshed(r, kinds_ref@, *plane, m, deltas@),
            { mesh_plane(store, deltas, kinds_ref, plane) }
    );
    let mut all: Vec<Quad> = Vec::new();
    let ghost n = kinds@.len() as int;
    let mut a: usize = 0;
    let ghost mut sides = Set::<Side>::empty();
    while a < 3
        invariant
            a <= 3,
            planes@ == seq![Plane::XY, Plane::YZ, Plane::XZ],
            per_plane@.len() == 3,
            all_fit(deltas@),
            n == kinds@.len(),
            forall|i: int|
                0 <= i < 3 ==> plane_meshed(#[trigger] per_plane@[i], kinds@, planes@[i], m, deltas@),
            gathered(all@, sides, m, deltas@),
            in_side_order(all@, kinds@),
            forall|s: Side|
                sides.contains(s) == (exists|i: int|
                    0 <= i < a && plane_sides(kinds@, n, #[trigger] planes@[i]).contains(s)),
        decreases 3 - a,
    {
        let ghost before = all@;
        let ghost more_sides = plane_sides(kinds@, n, planes@[a as int]);
        match &per_plane[a] {
            Ok(more) => {
                append(&mut all, more);
                proof {
                    assert(sides.disjoint(more_sides)) by {
                        assert forall|s: Side| !(sides.contains(s) && more_sides.contains(s)) by {
                            if sides.contains(s) && more_sides.contains(s) {
                                let i = choose|i: int|
                                    0 <= i < a && plane_sides(
                                        kinds@,
                                        n,
                                        #[trigger] planes@[i],
                                    ).contains(s);
                                assert(planes@[i] == s.plane);
                                assert(planes@[a as int] == s.plane);
                            }
                        }
                    }
                    assert forall|i: int, j: int|
                        0 <= i < before.len() && 0 <= j < more@.len() implies side_before(
                        (#[trigger] before[i]).side(),
                        (#[trigger] more@[j]).side(),
                        kinds@,
                    ) by {
                        assert(sides.contains(before[i].side()));
                        assert(more_sides.contains(more@[j].side()));
                        let x = choose|x: int|
                            0 <= x < a && plane_sides(kinds@, n, #[trigger] planes@[x]).contains(
                                before[i].side(),
                            );
                        assert(planes@[x] == before[i].side().plane);
                        assert(planes@[a as int] == more@[j].side().plane);
                        assert(plane_rank(planes@[x]) == x && plane_rank(planes@[a as int]) == a);
                    }
                    lemma_order_union(before, more@, kinds@);
                    lemma_gather_union(before, sides, more@, more_sides, m, deltas@);
                    let next = sides.union(more_sides);
                    assert forall|s: Side|
                        next.contains(s) == (exists|i: int|
                            0 <= i < a + 1 && plane_sides(
                                kinds@,
                                n,
                                #[trigger] planes@[i],
                            ).contains(s)) by {
                        if sides.contains(s) {
                            let i = choose|i: int|
                                0 <= i < a && plane_sides(kinds@, n, #[trigger] planes@[i]).contains(
                                    s,
                                );
                            assert(plane_sides(kinds@, n, planes@[i]).contains(s));
                        }
                        if more_sides.contains(s) {
                            assert(plane_sides(kinds@, n, planes@[a as int]).contains(s));
                        }
                        if exists|i: int|
                            0 <= i < a + 1 && plane_sides(kinds@, n, #[trigger] planes@[i]).contains(
                                s,
                            ) {
                            let i = choose|i: int|
                                0 <= i < a + 1 && plane_sides(
                                    kinds@,
                                    n,
                                    #[trigger] planes@[i],
                                ).contains(s);
                            if i < a {
                                assert(sides.contains(s));
                            }
                        }
                    }
                    sides = next;
                }
            },
            Err(e) => {
                return Err(*e);
            },
        }
        a = a + 1;
    }
    proof {
        assert forall|side: Side, u: int, v: int, w: int| #[trigger]
            shown(all@, side, u, v, w) == is_face(m, deltas@, side, u, v, w) by {
            if shown(all@, side, u, v, w) {
                let i = choose|i: int|
                    0 <= i < all@.len() && quad_shows(#[trigger] all@[i], side, u, v, w);
                assert(all@[i].rect.has(u, v, w));
            }
            if is_face(m, deltas@, side, u, v, w) {
                let p = side.plane.lift(u, v, w);
                lemma_content_is_present(stored@, m, deltas@, p);
                assert(kinds@.contains(side.kind));
                let b = choose|b: int| 0 <= b < kinds@.len() && kinds@[b] == side.kind;
                assert(kinds@[b] == side.kind);
                let i: int = match side.plane {
                    Plane::XY => 0,
                    Plane::YZ => 1,
                    Plane::XZ => 2,
                };
                assert(planes@[i] == side.plane);
                assert(plane_sides(kinds@, n, planes@[i]).contains(side));
                assert(sides.contains(side));
            }
        }
        assert(lists_once(stored@, m) && in_side_order(
            all@,
            kinds_seen(stored@, deltas@, deltas@.len() as int),
        ));
        assert forall|side: Side, u: int, v: int, w: int| #[trigger]
            is_face(m, deltas@, side, u, v, w) implies side_is_greedy(all@, side, m, deltas@) by {
            assert(shown(all@, side, u, v, w));
            let i = choose|i: int|
                0 <= i < all@.len() && quad_shows(#[trigger] all@[i], side, u, v, w);
            assert(sides.contains(all@[i].side()));
        }
    }
    Ok(all)
}

/// The word of row `v` in layer `w`, or the empty word beyond the layers.
pub open spec fn beyond(bitmap: Bitmap, v: int, w: int) -> u32 {
    if 0 <= w < 32 {
        bitmap.row(v, w)
    } else {
        0
    }
}

} // verus!
