//! Greedy rectangle extraction: an occupancy bitmap cut into rectangles.
//!
//! Layer by layer and row by row, the lowest occupied cell that no rectangle
//! has claimed yet becomes the corner of a new rectangle. The rectangle grows
//! along its row while the next cell is occupied and unclaimed, then across
//! rows while the next row holds every cell of that span, occupied and
//! unclaimed. Its cells are then claimed, until none is left.

use vstd::prelude::*;
use crate::bitmap::Bitmap;
use crate::bits::{
    has_bit, lemma_bit_and_not, lemma_bit_zero, lemma_covers_word, lowest_set, ones_from,
    span_mask,
};

verus! {

/// A rectangle of cells within one layer of a bitmap: it starts at cell `u` of
/// row `v` in layer `w` and spans `du + 1` cells along the row and `dv + 1`
/// rows.
#[derive(Clone, Copy, Debug, PartialEq, Eq, Structural)]
pub struct Rect {
    pub u: u8,
    pub v: u8,
    pub w: u8,
    pub du: u8,
    pub dv: u8,
}

impl Rect {
    /// Whether the rectangle lies inside the bitmap.
    pub open spec fn in_grid(self) -> bool {
        self.u + self.du < 32 && self.v + self.dv < 32 && self.w < 32
    }

    /// Whether the rectangle holds cell `u` of row `v` of layer `w`.
    pub open spec fn has(self, u: int, v: int, w: int) -> bool {
        &&& w == self.w
        &&& self.u <= u <= self.u + self.du
        &&& self.v <= v <= self.v + self.dv
    }
}

/// Whether one of `rects` holds the cell.
pub open spec fn claimed(rects: Seq<Rect>, u: int, v: int, w: int) -> bool {
    exists|i: int| 0 <= i < rects.len() && (#[trigger] rects[i]).has(u, v, w)
}

/// Whether no cell belongs to two of `rects`.
pub open spec fn disjoint(rects: Seq<Rect>) -> bool {
    forall|i: int, j: int, u: int, v: int, w: int|
        #![trigger rects[i].has(u, v, w), rects[j].has(u, v, w)]
        0 <= i < j < rects.len() ==> !(rects[i].has(u, v, w) && rects[j].has(u, v, w))
}

/// Whether `rects` cut the occupied cells of `bitmap` into rectangles: each
/// lies inside the bitmap, no two share a cell, and together they hold the
/// occupied cells and no others.
pub open spec fn is_partition(rects: Seq<Rect>, bitmap: Bitmap) -> bool {
    &&& forall|i: int| 0 <= i < rects.len() ==> (#[trigger] rects[i]).in_grid()
    &&& disjoint(rects)
    &&& forall|u: int, v: int, w: int| #[trigger] bitmap.cell(u, v, w) == claimed(rects, u, v, w)
}

/// Whether the cell is occupied in `bitmap` and none of the first `n`
/// rectangles holds it.
pub open spec fn unclaimed(bitmap: Bitmap, rects: Seq<Rect>, n: int, u: int, v: int, w: int) -> bool {
    bitmap.cell(u, v, w) && !claimed(rects.subrange(0, n), u, v, w)
}

/// Whether cell `(u, v, w)` comes before the corner of `r` in the order of
/// the scan: layer by layer, row by row, cell by cell.
pub open spec fn scanned_before(u: int, v: int, w: int, r: Rect) -> bool {
    w < r.w || (w == r.w && (v < r.v || (v == r.v && u < r.u)))
}

/// Whether rectangle `n` is the one that the greedy rule picks once the
/// first `n` are taken: its corner is the first unclaimed cell of the scan,
/// the cell after its end in the corner's row is not unclaimed, and the row
/// after its last row misses an unclaimed cell of its span.
pub open spec fn greedy_at(bitmap: Bitmap, rects: Seq<Rect>, n: int) -> bool {
    let r = rects[n];
    &&& forall|u: int, v: int, w: int|
        scanned_before(u, v, w, r) ==> !#[trigger] unclaimed(bitmap, rects, n, u, v, w)
    &&& !unclaimed(bitmap, rects, n, r.u + r.du + 1, r.v as int, r.w as int)
    &&& exists|u: int|
        r.u <= u <= r.u + r.du && !#[trigger] unclaimed(bitmap, rects, n, u, r.v + r.dv + 1, r.w as int)
}

/// Whether every rectangle is the one that the greedy rule picks after
/// those before it. Together with `is_partition` this fixes the rectangles
/// and their order.
pub open spec fn is_greedy(rects: Seq<Rect>, bitmap: Bitmap) -> bool {
    forall|n: int| 0 <= n < rects.len() ==> #[trigger] greedy_at(bitmap, rects, n)
}

/// The cells of rectangle `n` of a partition are unclaimed once the first
/// `n` rectangles are taken.
proof fn lemma_own_cells_unclaimed(rects: Seq<Rect>, bitmap: Bitmap, n: int, u: int, v: int, w: int)
    requires
        is_partition(rects, bitmap),
        0 <= n < rects.len(),
        rects[n].has(u, v, w),
    ensures
        unclaimed(bitmap, rects, n, u, v, w),
{
    assert(claimed(rects, u, v, w));
    let before = rects.subrange(0, n);
    if claimed(before, u, v, w) {
        let i = choose|i: int| 0 <= i < before.len() && (#[trigger] before[i]).has(u, v, w);
        assert(before[i] == rects[i]);
        assert(rects[i].has(u, v, w) && rects[n].has(u, v, w));
    }
}

/// Two greedy cuts of one bitmap that agree on their first `n` rectangles
/// agree on the next one.
proof fn lemma_next_rect_agrees(first: Seq<Rect>, second: Seq<Rect>, bitmap: Bitmap, n: int)
    requires
        is_partition(first, bitmap),
        is_greedy(first, bitmap),
        is_partition(second, bitmap),
        is_greedy(second, bitmap),
        0 <= n < first.len(),
        n < second.len(),
        first.subrange(0, n) == second.subrange(0, n),
    ensures
        first[n] == second[n],
{
    let a = first[n];
    let c = second[n];
    assert(greedy_at(bitmap, first, n));
    assert(greedy_at(bitmap, second, n));
    assert(a.in_grid() && c.in_grid());
    assert forall|u: int, v: int, w: int|
        unclaimed(bitmap, first, n, u, v, w) == unclaimed(bitmap, second, n, u, v, w) by {}
    // Neither corner comes before the other in the scan.
    lemma_own_cells_unclaimed(first, bitmap, n, a.u as int, a.v as int, a.w as int);
    lemma_own_cells_unclaimed(second, bitmap, n, c.u as int, c.v as int, c.w as int);
    assert(unclaimed(bitmap, second, n, a.u as int, a.v as int, a.w as int));
    assert(unclaimed(bitmap, first, n, c.u as int, c.v as int, c.w as int));
    assert(!scanned_before(a.u as int, a.v as int, a.w as int, c));
    assert(!scanned_before(c.u as int, c.v as int, c.w as int, a));
    assert(a.u == c.u && a.v == c.v && a.w == c.w);
    // Neither reaches further along the row.
    if a.du > c.du {
        lemma_own_cells_unclaimed(first, bitmap, n, c.u + c.du + 1, a.v as int, a.w as int);
        assert(unclaimed(bitmap, second, n, c.u + c.du + 1, c.v as int, c.w as int));
    }
    if c.du > a.du {
        lemma_own_cells_unclaimed(second, bitmap, n, a.u + a.du + 1, c.v as int, c.w as int);
        assert(unclaimed(bitmap, first, n, a.u + a.du + 1, a.v as int, a.w as int));
    }
    assert(a.du == c.du);
    // Neither reaches further across the rows.
    if a.dv > c.dv {
        let gap = choose|u: int|
            c.u <= u <= c.u + c.du && !#[trigger] unclaimed(
                bitmap,
                second,
                n,
                u,
                c.v + c.dv + 1,
                c.w as int,
            );
        lemma_own_cells_unclaimed(first, bitmap, n, gap, c.v + c.dv + 1, a.w as int);
        assert(unclaimed(bitmap, second, n, gap, c.v + c.dv + 1, c.w as int));
    }
    if c.dv > a.dv {
        let gap = choose|u: int|
            a.u <= u <= a.u + a.du && !#[trigger] unclaimed(
                bitmap,
                first,
                n,
                u,
                a.v + a.dv + 1,
                a.w as int,
            );
        lemma_own_cells_unclaimed(second, bitmap, n, gap, a.v + a.dv + 1, c.w as int);
        assert(unclaimed(bitmap, first, n, gap, a.v + a.dv + 1, a.w as int));
    }
    assert(a.dv == c.dv);
}

/// Two greedy cuts of one bitmap agree on their first `n` rectangles.
proof fn lemma_prefixes_agree(first: Seq<Rect>, second: Seq<Rect>, bitmap: Bitmap, n: int)
    requires
        is_partition(first, bitmap),
        is_greedy(first, bitmap),
        is_partition(second, bitmap),
        is_greedy(second, bitmap),
        0 <= n <= first.len(),
        n <= second.len(),
    ensures
        first.subrange(0, n) == second.subrange(0, n),
    decreases n,
{
    if n == 0 {
        assert(first.subrange(0, 0) =~= second.subrange(0, 0));
    } else {
        lemma_prefixes_agree(first, second, bitmap, n - 1);
        lemma_next_rect_agrees(first, second, bitmap, n - 1);
        assert(first.subrange(0, n) =~= first.subrange(0, n - 1).push(first[n - 1]));
        assert(second.subrange(0, n) =~= second.subrange(0, n - 1).push(second[n - 1]));
    }
}

/// The greedy cut is unique: a bitmap has one sequence of rectangles that
/// is a partition of its occupied cells and greedy at every step, so
/// `is_partition` and `is_greedy` together fix what `extract_rectangles`
/// returns.
pub proof fn lemma_greedy_cut_unique(first: Seq<Rect>, second: Seq<Rect>, bitmap: Bitmap)
    requires
        is_partition(first, bitmap),
        is_greedy(first, bitmap),
        is_partition(second, bitmap),
        is_greedy(second, bitmap),
    ensures
        first == second,
{
    let n = if first.len() <= second.len() {
        first.len() as int
    } else {
        second.len() as int
    };
    lemma_prefixes_agree(first, second, bitmap, n);
    if first.len() >= second.len() {
        lemma_cut_ends_with_other(first, second, bitmap);
    } else {
        lemma_cut_ends_with_other(second, first, bitmap);
    }
    assert(first.subrange(0, n) =~= first);
    assert(second.subrange(0, n) =~= second);
}

/// Being a greedy cut depends on the occupied cells alone: a greedy cut of
/// a bitmap is one of every bitmap with the same cells occupied.
pub proof fn lemma_greedy_cut_of_same_cells(rects: Seq<Rect>, bitmap: Bitmap, other: Bitmap)
    requires
        is_partition(rects, bitmap),
        is_greedy(rects, bitmap),
        forall|u: int, v: int, w: int| #[trigger] bitmap.cell(u, v, w) == other.cell(u, v, w),
    ensures
        is_partition(rects, other),
        is_greedy(rects, other),
{
    assert forall|u: int, v: int, w: int| #[trigger] other.cell(u, v, w) == claimed(
        rects,
        u,
        v,
        w,
    ) by {
        assert(bitmap.cell(u, v, w) == claimed(rects, u, v, w));
    }
    assert forall|n: int| 0 <= n < rects.len() implies #[trigger] greedy_at(other, rects, n) by {
        assert(greedy_at(bitmap, rects, n));
        let r = rects[n];
        assert forall|u: int, v: int, w: int|
            unclaimed(other, rects, n, u, v, w) == unclaimed(bitmap, rects, n, u, v, w) by {
            assert(bitmap.cell(u, v, w) == other.cell(u, v, w));
        }
        let gap = choose|u: int|
            r.u <= u <= r.u + r.du && !#[trigger] unclaimed(
                bitmap,
                rects,
                n,
                u,
                r.v + r.dv + 1,
                r.w as int,
            );
        assert(!unclaimed(other, rects, n, gap, r.v + r.dv + 1, r.w as int));
    }
}

/// A partition ends where another partition of the same bitmap ends with
/// which it agrees up to there.
proof fn lemma_cut_ends_with_other(long: Seq<Rect>, short: Seq<Rect>, bitmap: Bitmap)
    requires
        is_partition(long, bitmap),
        is_partition(short, bitmap),
        short.len() <= long.len(),
        long.subrange(0, short.len() as int) == short.subrange(0, short.len() as int),
    ensures
        long.len() == short.len(),
{
    let n = short.len() as int;
    if n < long.len() {
        let r = long[n];
        assert(r.in_grid());
        assert(r.has(r.u as int, r.v as int, r.w as int));
        lemma_own_cells_unclaimed(long, bitmap, n, r.u as int, r.v as int, r.w as int);
        assert(short.subrange(0, n) =~= short);
        assert(claimed(short, r.u as int, r.v as int, r.w as int));
    }
}

proof fn lemma_greedy_step(bitmap: Bitmap, rest: Bitmap, rects: Seq<Rect>, r: Rect)
    requires
        partial(bitmap, rest, rects),
        is_greedy(rects, bitmap),
        forall|u: int, v: int, w: int| scanned_before(u, v, w, r) ==> !#[trigger] rest.cell(u, v, w),
        !rest.cell(r.u + r.du + 1, r.v as int, r.w as int),
        exists|u: int| r.u <= u <= r.u + r.du && !#[trigger] rest.cell(u, r.v + r.dv + 1, r.w as int),
    ensures
        is_greedy(rects.push(r), bitmap),
{
    let next = rects.push(r);
    let last = rects.len() as int;
    assert forall|n: int| 0 <= n < next.len() implies #[trigger] greedy_at(bitmap, next, n) by {
        if n < last {
            assert(greedy_at(bitmap, rects, n));
            assert(next.subrange(0, n) =~= rects.subrange(0, n));
            assert(next[n] == rects[n]);
            let q = rects[n];
            let u0 = choose|u: int|
                q.u <= u <= q.u + q.du && !#[trigger] unclaimed(
                    bitmap,
                    rects,
                    n,
                    u,
                    q.v + q.dv + 1,
                    q.w as int,
                );
            assert(!unclaimed(bitmap, next, n, u0, q.v + q.dv + 1, q.w as int));
            assert forall|u: int, v: int, w: int| scanned_before(u, v, w, q) implies !#[trigger] unclaimed(
                bitmap,
                next,
                n,
                u,
                v,
                w,
            ) by {
                assert(!unclaimed(bitmap, rects, n, u, v, w));
            }
        } else {
            assert(next.subrange(0, n) =~= rects);
            assert(next[n] == r);
            assert forall|u: int, v: int, w: int| #[trigger]
                unclaimed(bitmap, next, n, u, v, w) == rest.cell(u, v, w) by {}
            let u0 = choose|u: int|
                r.u <= u <= r.u + r.du && !#[trigger] rest.cell(u, r.v + r.dv + 1, r.w as int);
            assert(!unclaimed(bitmap, next, n, u0, r.v + r.dv + 1, r.w as int));
        }
    }
}

/// The state between two extractions: `rest` holds the cells of `bitmap`
/// that none of `rects` has claimed.
spec fn partial(bitmap: Bitmap, rest: Bitmap, rects: Seq<Rect>) -> bool {
    &&& forall|i: int| 0 <= i < rects.len() ==> (#[trigger] rects[i]).in_grid()
    &&& disjoint(rects)
    &&& forall|u: int, v: int, w: int| #[trigger]
        rest.cell(u, v, w) == (bitmap.cell(u, v, w) && !claimed(rects, u, v, w))
    &&& forall|i: int, u: int, v: int, w: int|
        0 <= i < rects.len() && (#[trigger] rects[i].has(u, v, w)) ==> bitmap.cell(u, v, w)
}

proof fn lemma_claim_step(bitmap: Bitmap, rest: Bitmap, after: Bitmap, rects: Seq<Rect>, r: Rect)
    requires
        partial(bitmap, rest, rects),
        r.in_grid(),
        forall|u: int, v: int, w: int| r.has(u, v, w) ==> rest.cell(u, v, w),
        forall|u: int, v: int, w: int| #[trigger]
            after.cell(u, v, w) == (rest.cell(u, v, w) && !r.has(u, v, w)),
    ensures
        partial(bitmap, after, rects.push(r)),
{
    let next = rects.push(r);
    assert forall|u: int, v: int, w: int| #[trigger]
        after.cell(u, v, w) == (bitmap.cell(u, v, w) && !claimed(next, u, v, w)) by {
        if claimed(next, u, v, w) {
            let i = choose|i: int| 0 <= i < next.len() && (#[trigger] next[i]).has(u, v, w);
            if i < rects.len() {
                assert(rects[i].has(u, v, w));
                assert(claimed(rects, u, v, w));
            }
        }
        if claimed(rects, u, v, w) {
            let i = choose|i: int| 0 <= i < rects.len() && (#[trigger] rects[i]).has(u, v, w);
            assert(next[i].has(u, v, w));
        }
        if r.has(u, v, w) {
            assert(next[rects.len() as int].has(u, v, w));
        }
    }
    assert forall|i: int, j: int, u: int, v: int, w: int|
        #![trigger next[i].has(u, v, w), next[j].has(u, v, w)]
        0 <= i < j < next.len() implies !(next[i].has(u, v, w) && next[j].has(u, v, w)) by {
        if j == rects.len() && next[i].has(u, v, w) {
            assert(rects[i].has(u, v, w));
            assert(claimed(rects, u, v, w));
        } else if j < rects.len() {
            assert(rects[i].has(u, v, w) == next[i].has(u, v, w));
            assert(rects[j].has(u, v, w) == next[j].has(u, v, w));
        }
    }
}

/// Grows the rectangle whose corner is the lowest occupied cell of row `v` in
/// layer `w`: along the row while cells are occupied, then across rows while
/// every cell of the span is.
fn grow(rest: &Bitmap, v: u8, w: u8) -> (r: Rect)
    requires
        v < 32,
        w < 32,
        rest.row(v as int, w as int) != 0,
    ensures
        r.in_grid(),
        r.v == v,
        r.w == w,
        forall|u2: int, v2: int, w2: int| r.has(u2, v2, w2) ==> rest.cell(u2, v2, w2),
        forall|u2: int| 0 <= u2 < r.u ==> !rest.cell(u2, v as int, w as int),
        !rest.cell(r.u + r.du + 1, v as int, w as int),
        exists|u2: int| r.u <= u2 <= r.u + r.du && !#[trigger] rest.cell(u2, v + r.dv + 1, w as int),
{
    let word = rest.get_row(v as usize, w as usize);
    let lo = lowest_set(word);
    let n = ones_from(word, lo);
    assert(n >= 1) by {
        if n == 0 {
            assert(has_bit(word, lo as int));
        }
    }
    let hi: u32 = lo + n - 1;
    let mask = span_mask(lo, hi);
    let mut top: u8 = v;
    let mut blocked = false;
    while top < 31 && !blocked
        invariant
            v <= top < 32,
            w < 32,
            lo <= hi < 32,
            forall|i: int| has_bit(mask, i) == (lo <= i <= hi),
            forall|u2: int, v2: int| v <= v2 <= top && lo <= u2 <= hi ==> rest.cell(u2, v2, w as int),
            blocked ==> exists|u2: int| lo <= u2 <= hi && !#[trigger] rest.cell(u2, top + 1, w as int),
        decreases 31 - top + if blocked { 0int } else { 1int },
    {
        let next = rest.get_row((top + 1) as usize, w as usize);
        proof {
            lemma_covers_word(next, mask);
        }
        if next & mask != mask {
            blocked = true;
            proof {
                let above: int = top + 1;
                let i = choose|i: int| has_bit(mask, i) && !has_bit(next, i);
                assert(lo <= i <= hi && !rest.cell(i, above, w as int));
            }
        } else {
            proof {
                let above: int = top + 1;
                assert forall|u2: int| lo <= u2 <= hi implies #[trigger] rest.cell(
                    u2,
                    above,
                    w as int,
                ) by {
                    assert(has_bit(mask, u2));
                }
            }
            top = top + 1;
        }
    }
    let r = Rect { u: lo as u8, v, w, du: (hi - lo) as u8, dv: top - v };
    proof {
        let above: int = v + r.dv + 1;
        assert(above == top + 1);
        let gap = if blocked {
            choose|u2: int| lo <= u2 <= hi && !#[trigger] rest.cell(u2, top + 1, w as int)
        } else {
            lo as int
        };
        assert(r.u <= gap <= r.u + r.du && !rest.cell(gap, above, w as int));
    }
    r
}

/// Vacates the cells of `r`.
fn claim(rest: &mut Bitmap, r: Rect)
    requires
        r.in_grid(),
    ensures
        forall|u: int, v: int, w: int| #[trigger]
            final(rest).cell(u, v, w) == (old(rest).cell(u, v, w) && !r.has(u, v, w)),
        forall|v: int, w: int|
            0 <= v < 32 && 0 <= w < 32 && !(w == r.w && r.v <= v <= r.v + r.dv)
                ==> #[trigger] final(rest).row(v, w) == old(rest).row(v, w),
{
    let mask = span_mask(r.u as u32, (r.u + r.du) as u32);
    let top: u8 = r.v + r.dv;
    let mut v: u8 = r.v;
    while v <= top
        invariant
            r.in_grid(),
            top == r.v + r.dv,
            r.v <= v <= top + 1,
            forall|v2: int, w2: int|
                0 <= v2 < 32 && 0 <= w2 < 32 ==> #[trigger] rest.row(v2, w2) == if w2 == r.w
                    && r.v <= v2 < v {
                    old(rest).row(v2, w2) & !mask
                } else {
                    old(rest).row(v2, w2)
                },
        decreases top + 1 - v,
    {
        let word = rest.get_row(v as usize, r.w as usize);
        rest.set_row(v as usize, r.w as usize, word & !mask);
        v = v + 1;
    }
    proof {
        assert forall|u: int, v: int, w: int| #[trigger]
            rest.cell(u, v, w) == (old(rest).cell(u, v, w) && !r.has(u, v, w)) by {
            if 0 <= v < 32 && 0 <= w < 32 {
                lemma_bit_and_not(old(rest).row(v, w), mask, u);
            }
        }
    }
}

/// Cuts the occupied cells of `bitmap` into rectangles, greedily.
pub fn extract_rectangles(bitmap: &Bitmap) -> (rects: Vec<Rect>)
    ensures
        is_partition(rects@, *bitmap),
        is_greedy(rects@, *bitmap),
{
    let mut rest = bitmap.duplicate();
    let mut rects: Vec<Rect> = Vec::new();
    let mut w: u8 = 0;
    while w < 32
        invariant
            w <= 32,
            partial(*bitmap, rest, rects@),
            is_greedy(rects@, *bitmap),
            forall|v2: int, w2: int| 0 <= v2 < 32 && 0 <= w2 < w ==> #[trigger] rest.row(v2, w2) == 0,
        decreases 32 - w,
    {
        let mut v: u8 = 0;
        while v < 32
            invariant
                w < 32,
                v <= 32,
                partial(*bitmap, rest, rects@),
                is_greedy(rects@, *bitmap),
                forall|v2: int, w2: int|
                    0 <= v2 < 32 && 0 <= w2 < 32 && (w2 < w || (w2 == w && v2 < v))
                        ==> #[trigger] rest.row(v2, w2) == 0,
            decreases 32 - v,
        {
            let mut floor: u32 = 0;
            while rest.get_row(v as usize, w as usize) != 0
                invariant
                    w < 32,
                    v < 32,
                    floor <= 32,
                    partial(*bitmap, rest, rects@),
                    is_greedy(rects@, *bitmap),
                    forall|u2: int| 0 <= u2 < floor ==> !rest.cell(u2, v as int, w as int),
                    forall|v2: int, w2: int|
                        0 <= v2 < 32 && 0 <= w2 < 32 && (w2 < w || (w2 == w && v2 < v))
                            ==> #[trigger] rest.row(v2, w2) == 0,
                decreases 32 - floor,
            {
                let r = grow(&rest, v, w);
                let ghost before = rest;
                claim(&mut rest, r);
                proof {
                    assert(before.cell(r.u as int, v as int, w as int)) by {
                        assert(r.has(r.u as int, v as int, w as int));
                    }
                    assert forall|u2: int, v2: int, w2: int|
                        scanned_before(u2, v2, w2, r) implies !#[trigger] before.cell(u2, v2, w2) by {
                        if 0 <= v2 < 32 && 0 <= w2 < 32 && !(w2 == w && v2 == v) {
                            assert(before.row(v2, w2) == 0);
                            lemma_bit_zero(u2);
                        }
                    }
                    lemma_greedy_step(*bitmap, before, rects@, r);
                    lemma_claim_step(*bitmap, before, rest, rects@, r);
                    assert forall|u2: int| 0 <= u2 < r.u + r.du + 1 implies !rest.cell(
                        u2,
                        v as int,
                        w as int,
                    ) by {
                        if u2 >= r.u {
                            assert(r.has(u2, v as int, w as int));
                        }
                    }
                }
                rects.push(r);
                floor = (r.u + r.du) as u32 + 1;
            }
            v = v + 1;
        }
        w = w + 1;
    }
    proof {
        assert forall|u: int, v: int, w: int| #[trigger]
            bitmap.cell(u, v, w) == claimed(rects@, u, v, w) by {
            if 0 <= v < 32 && 0 <= w < 32 {
                assert(rest.row(v, w) == 0);
                lemma_bit_zero(u);
            }
            assert(!rest.cell(u, v, w));
            if claimed(rects@, u, v, w) {
                let i = choose|i: int| 0 <= i < rects@.len() && (#[trigger] rects@[i]).has(u, v, w);
                assert(rects@[i].has(u, v, w));
            }
        }
    }
    rects
}

} // verus!
