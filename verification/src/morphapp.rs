//! Size selection of connected components:
//! keep exactly the 4- or 8-connected ink components whose bounding box
//! satisfies a size predicate, and drop the rest.
use vstd::prelude::*;
use crate::grid::{idx, lemma_idx_bounds};
use crate::seedfill::{adjacent, in_grid};
use crate::conncomp::{connected, ink_at, ink_closed, lemma_connected_ink, lemma_connected_step, lemma_connected_sym, lemma_connected_trans};

verus! {

/// Which dimension(s) the size predicate tests
/// (`L_SELECT_{WIDTH,HEIGHT,IF_EITHER,IF_BOTH}`).
#[derive(Clone, Copy, Debug, PartialEq, Eq, Structural)]
pub enum SelectType {
    /// Test the width only (the height threshold is ignored).
    Width,
    /// Test the height only (the width threshold is ignored).
    Height,
    /// Keep when either dimension satisfies the relation.
    IfEither,
    /// Keep when both dimensions satisfy the relation.
    IfBoth,
}

/// The comparison the size predicate applies (`L_SELECT_IF_{LT,GT,LTE,GTE}`).
#[derive(Clone, Copy, Debug, PartialEq, Eq, Structural)]
pub enum SelectRelation {
    /// Keep components strictly smaller than the threshold.
    Lt,
    /// Keep components strictly larger than the threshold.
    Gt,
    /// Keep components at most the threshold.
    Lte,
    /// Keep components at least the threshold.
    Gte,
}

/// `value` stands in relation `r` to `threshold`.
pub open spec fn relation_holds(r: SelectRelation, value: int, threshold: int) -> bool {
    match r {
        SelectRelation::Lt => value < threshold,
        SelectRelation::Gt => value > threshold,
        SelectRelation::Lte => value <= threshold,
        SelectRelation::Gte => value >= threshold,
    }
}

impl SelectRelation {
    /// Does `value` stand in this relation to `threshold`?
    fn holds(self, value: usize, threshold: usize) -> (b: bool)
        ensures
            b == relation_holds(self, value as int, threshold as int),
    {
        match self {
            SelectRelation::Lt => value < threshold,
            SelectRelation::Gt => value > threshold,
            SelectRelation::Lte => value <= threshold,
            SelectRelation::Gte => value >= threshold,
        }
    }
}

/// The size predicate: thresholds, the tested dimension(s) and the
/// comparison.
#[derive(Clone, Copy, Debug, PartialEq, Eq, Structural)]
pub struct SizeFilter {
    /// Width threshold (ignored for [`SelectType::Height`]).
    pub width: usize,
    /// Height threshold (ignored for [`SelectType::Width`]).
    pub height: usize,
    /// Which dimension(s) the predicate tests.
    pub select_type: SelectType,
    /// The comparison applied to each tested dimension.
    pub relation: SelectRelation,
}

/// A component whose bounding box is `bw × bh` passes the filter.
pub open spec fn keeps(f: SizeFilter, bw: int, bh: int) -> bool {
    let w_ok = relation_holds(f.relation, bw, f.width as int);
    let h_ok = relation_holds(f.relation, bh, f.height as int);
    match f.select_type {
        SelectType::Width => w_ok,
        SelectType::Height => h_ok,
        SelectType::IfEither => w_ok || h_ok,
        SelectType::IfBoth => w_ok && h_ok,
    }
}

/// Law: the size filter tests the box width against the width threshold and
/// the box height against the height threshold, each with the filter's
/// comparison: `Width` keeps on the width test alone, `Height` on the height
/// test alone, `IfEither` when either passes, `IfBoth` when both pass.
pub proof fn lemma_size_filter_tests(f: SizeFilter, bw: int, bh: int)
    ensures
        ({
            let wt = (f.relation is Lt && bw < f.width) || (f.relation is Gt && bw > f.width) || (f.relation is Lte && bw <= f.width)
                || (f.relation is Gte && bw >= f.width);
            let ht = (f.relation is Lt && bh < f.height) || (f.relation is Gt && bh > f.height) || (f.relation is Lte && bh
                <= f.height) || (f.relation is Gte && bh >= f.height);
            &&& f.select_type is Width ==> (keeps(f, bw, bh) <==> wt)
            &&& f.select_type is Height ==> (keeps(f, bw, bh) <==> ht)
            &&& f.select_type is IfEither ==> (keeps(f, bw, bh) <==> wt || ht)
            &&& f.select_type is IfBoth ==> (keeps(f, bw, bh) <==> wt && ht)
        }),
{
}

/// `(bx, by, bw, bh)` is the bounding box of the in-grid pixels satisfying
/// `m`: it lies in the grid, holds all of them, and each edge holds one.
pub open spec fn is_box_of(m: spec_fn(int, int) -> bool, w: int, h: int, bx: int, by: int, bw: int, bh: int) -> bool {
    &&& 0 <= bx && 1 <= bw && bx + bw <= w
    &&& 0 <= by && 1 <= bh && by + bh <= h
    &&& forall|x: int, y: int| in_grid(x, y, w, h) && #[trigger] m(x, y) ==> bx <= x < bx + bw && by <= y < by + bh
    &&& exists|y: int| 0 <= y < h && #[trigger] m(bx, y)
    &&& exists|y: int| 0 <= y < h && #[trigger] m(bx + bw - 1, y)
    &&& exists|x: int| 0 <= x < w && #[trigger] m(x, by)
    &&& exists|x: int| 0 <= x < w && #[trigger] m(x, by + bh - 1)
}

/// The pixels connected to `(x, y)`, as a predicate on coordinates.
pub open spec fn comp_of(b: Seq<u8>, w: int, h: int, conn: int, x: int, y: int) -> spec_fn(int, int) -> bool {
    |qx: int, qy: int| connected(b, w, h, conn, x, y, qx, qy)
}

/// The component of `(x, y)` has a bounding box that passes the filter.
pub open spec fn kept_at(b: Seq<u8>, w: int, h: int, conn: int, f: SizeFilter, x: int, y: int) -> bool {
    exists|bx: int, by: int, bw: int, bh: int| #[trigger] is_box_of(comp_of(b, w, h, conn, x, y), w, h, bx, by, bw, bh) && keeps(f, bw, bh)
}

/// Two bounding boxes of predicates that agree on the grid coincide.
pub proof fn lemma_box_unique(
    m1: spec_fn(int, int) -> bool,
    m2: spec_fn(int, int) -> bool,
    w: int,
    h: int,
    bx: int,
    by: int,
    bw: int,
    bh: int,
    cx: int,
    cy: int,
    cw: int,
    ch: int,
)
    requires
        is_box_of(m1, w, h, bx, by, bw, bh),
        is_box_of(m2, w, h, cx, cy, cw, ch),
        forall|x: int, y: int| in_grid(x, y, w, h) ==> (#[trigger] m1(x, y) <==> m2(x, y)),
    ensures
        bx == cx && by == cy && bw == cw && bh == ch,
{
    let y1 = choose|y: int| 0 <= y < h && #[trigger] m1(bx, y);
    let y2 = choose|y: int| 0 <= y < h && #[trigger] m1(bx + bw - 1, y);
    let x3 = choose|x: int| 0 <= x < w && #[trigger] m1(x, by);
    let x4 = choose|x: int| 0 <= x < w && #[trigger] m1(x, by + bh - 1);
    let z1 = choose|y: int| 0 <= y < h && #[trigger] m2(cx, y);
    let z2 = choose|y: int| 0 <= y < h && #[trigger] m2(cx + cw - 1, y);
    let u3 = choose|x: int| 0 <= x < w && #[trigger] m2(x, cy);
    let u4 = choose|x: int| 0 <= x < w && #[trigger] m2(x, cy + ch - 1);
    assert(m2(bx, y1));
    assert(m2(bx + bw - 1, y2));
    assert(m2(x3, by));
    assert(m2(x4, by + bh - 1));
    assert(m1(cx, z1));
    assert(m1(cx + cw - 1, z2));
    assert(m1(u3, cy));
    assert(m1(u4, cy + ch - 1));
}

/// A bounding box of `m1` is one of every predicate agreeing with `m1` on
/// the grid.
pub proof fn lemma_box_transfer(m1: spec_fn(int, int) -> bool, m2: spec_fn(int, int) -> bool, w: int, h: int, bx: int, by: int, bw: int, bh: int)
    requires
        is_box_of(m1, w, h, bx, by, bw, bh),
        forall|x: int, y: int| in_grid(x, y, w, h) ==> (#[trigger] m1(x, y) <==> m2(x, y)),
    ensures
        is_box_of(m2, w, h, bx, by, bw, bh),
{
    let y1 = choose|y: int| 0 <= y < h && #[trigger] m1(bx, y);
    let y2 = choose|y: int| 0 <= y < h && #[trigger] m1(bx + bw - 1, y);
    let x3 = choose|x: int| 0 <= x < w && #[trigger] m1(x, by);
    let x4 = choose|x: int| 0 <= x < w && #[trigger] m1(x, by + bh - 1);
    assert(m2(bx, y1));
    assert(m2(bx + bw - 1, y2));
    assert(m2(x3, by));
    assert(m2(x4, by + bh - 1));
    assert forall|x: int, y: int| in_grid(x, y, w, h) && #[trigger] m2(x, y) implies bx <= x < bx + bw && by <= y < by + bh by {
        assert(m1(x, y));
    }
}

/// Every pixel connected to an ink seed has the seed's component.
pub proof fn lemma_same_component(b: Seq<u8>, w: int, h: int, conn: int, sx: int, sy: int, px: int, py: int)
    requires
        in_grid(sx, sy, w, h),
        ink_at(b, w, sx, sy),
        connected(b, w, h, conn, sx, sy, px, py),
    ensures
        forall|x: int, y: int| #[trigger] comp_of(b, w, h, conn, sx, sy)(x, y) <==> comp_of(b, w, h, conn, px, py)(x, y),
{
    lemma_connected_sym(b, w, h, conn, sx, sy, px, py);
    assert forall|x: int, y: int| #[trigger] comp_of(b, w, h, conn, sx, sy)(x, y) <==> comp_of(b, w, h, conn, px, py)(x, y) by {
        if connected(b, w, h, conn, sx, sy, x, y) {
            lemma_connected_trans(b, w, h, conn, px, py, sx, sy, x, y);
        }
        if connected(b, w, h, conn, px, py, x, y) {
            lemma_connected_trans(b, w, h, conn, sx, sy, px, py, x, y);
        }
    }
}

/// Number of `false` entries.
spec fn count_false(v: Seq<bool>) -> nat
    decreases v.len(),
{
    if v.len() == 0 {
        0
    } else {
        count_false(v.drop_last()) + if !v.last() { 1nat } else { 0nat }
    }
}

/// Marking an unmarked entry lowers the number of `false` entries by one.
proof fn lemma_count_false_mark(v: Seq<bool>, i: int)
    requires
        0 <= i < v.len(),
        !v[i],
    ensures
        count_false(v.update(i, true)) + 1 == count_false(v),
    decreases v.len(),
{
    if i < v.len() - 1 {
        lemma_count_false_mark(v.drop_last(), i);
        assert(v.update(i, true).drop_last() =~= v.drop_last().update(i, true));
    } else {
        assert(v.update(i, true).drop_last() =~= v.drop_last());
    }
}

/// Pixel `p` of the grid was marked during the current fill: marked in `v`
/// and not in `v0`.
spec fn fresh(v0: Seq<bool>, v: Seq<bool>, w: int, x: int, y: int) -> bool {
    v[idx(x, y, w)] && !v0[idx(x, y, w)]
}

/// Marked pixels are closed under stepping to an adjacent ink pixel.
spec fn marks_closed(b: Seq<u8>, w: int, h: int, conn: int, v: Seq<bool>) -> bool {
    forall|px: int, py: int, qx: int, qy: int|
        in_grid(px, py, w, h) && in_grid(qx, qy, w, h) && #[trigger] adjacent(conn, px, py, qx, qy) && v[idx(px, py, w)] && ink_at(b, w, qx, qy)
            ==> v[idx(qx, qy, w)]
}

/// Every adjacent ink pixel of the first `upto` expanded pixels is marked.
spec fn expanded_closed(b: Seq<u8>, w: int, h: int, conn: int, v: Seq<bool>, pixels: Seq<(usize, usize)>, upto: int) -> bool {
    forall|t: int, qx: int, qy: int|
        0 <= t < upto && in_grid(qx, qy, w, h) && #[trigger] adjacent(conn, pixels[t].0 as int, pixels[t].1 as int, qx, qy) && ink_at(b, w, qx, qy)
            ==> v[idx(qx, qy, w)]
}

/// State of one flood fill from the seed `(sx, sy)`: `v0` are the marks
/// before it began and `v` the marks now; every freshly marked pixel is ink,
/// connected to the seed, and waits on the stack or has been expanded.
spec fn fill_state(
    b: Seq<u8>,
    w: int,
    h: int,
    conn: int,
    v0: Seq<bool>,
    v: Seq<bool>,
    stack: Seq<(usize, usize)>,
    pixels: Seq<(usize, usize)>,
    sx: int,
    sy: int,
) -> bool {
    &&& b.len() == w * h && v0.len() == w * h && v.len() == w * h
    &&& 0 <= w <= usize::MAX && 0 <= h <= usize::MAX
    &&& conn == 4 || conn == 8
    &&& in_grid(sx, sy, w, h) && ink_at(b, w, sx, sy)
    &&& fresh(v0, v, w, sx, sy)
    &&& forall|i: int| 0 <= i < w * h && #[trigger] v[i] ==> b[i] == 0
    &&& forall|i: int| 0 <= i < w * h && #[trigger] v0[i] ==> v[i]
    &&& forall|x: int, y: int| in_grid(x, y, w, h) && #[trigger] fresh(v0, v, w, x, y) ==> connected(b, w, h, conn, sx, sy, x, y)
    &&& forall|t: int|
        0 <= t < stack.len() ==> in_grid(#[trigger] stack[t].0 as int, stack[t].1 as int, w, h) && fresh(v0, v, w, stack[t].0 as int, stack[t].1 as int)
    &&& forall|t: int|
        0 <= t < pixels.len() ==> in_grid(#[trigger] pixels[t].0 as int, pixels[t].1 as int, w, h) && fresh(v0, v, w, pixels[t].0 as int, pixels[t].1 as int)
    &&& forall|x: int, y: int|
        in_grid(x, y, w, h) && #[trigger] fresh(v0, v, w, x, y) ==> stack.contains((x as usize, y as usize)) || pixels.contains((x as usize, y as usize))
}

/// Mark and push every unmarked ink neighbour of the expanded pixel
/// `(cx, cy)` (the last of `pixels`), scanning its 3 × 3 window clipped to
/// the grid.
#[verifier::spinoff_prover]
#[verifier::rlimit(40)]
fn visit_neighbours(
    binary: &[u8],
    w: usize,
    h: usize,
    connectivity: u32,
    visited: &mut Vec<bool>,
    stack: &mut Vec<(usize, usize)>,
    cx: usize,
    cy: usize,
    Ghost(v0): Ghost<Seq<bool>>,
    Ghost(pixels): Ghost<Seq<(usize, usize)>>,
    Ghost(sx): Ghost<int>,
    Ghost(sy): Ghost<int>,
)
    requires
        fill_state(binary@, w as int, h as int, connectivity as int, v0, old(visited)@, old(stack)@, pixels, sx, sy),
        expanded_closed(binary@, w as int, h as int, connectivity as int, old(visited)@, pixels, pixels.len() - 1),
        pixels.len() > 0,
        pixels.last() == (cx, cy),
    ensures
        fill_state(binary@, w as int, h as int, connectivity as int, v0, final(visited)@, final(stack)@, pixels, sx, sy),
        expanded_closed(binary@, w as int, h as int, connectivity as int, final(visited)@, pixels, pixels.len() as int),
        forall|i: int| 0 <= i < w * h && #[trigger] old(visited)@[i] ==> final(visited)@[i],
        count_false(final(visited)@) < count_false(old(visited)@) || final(stack)@ == old(stack)@,
        count_false(final(visited)@) <= count_false(old(visited)@),
{
    let ghost b = binary@;
    let ghost wi = w as int;
    let ghost hi = h as int;
    let ghost conn = connectivity as int;
    let ghost vin = visited@;
    let ghost sin = stack@;
    proof {
        assert(in_grid(pixels[pixels.len() - 1].0 as int, pixels[pixels.len() - 1].1 as int, wi, hi));
        assert(fresh(v0, vin, wi, cx as int, cy as int));
    }
    let x0 = if cx >= 1 { cx - 1 } else { 0 };
    let x1 = if cx + 1 < w { cx + 1 } else { w - 1 };
    let y0 = if cy >= 1 { cy - 1 } else { 0 };
    let y1 = if cy + 1 < h { cy + 1 } else { h - 1 };
    let mut ny = y0;
    while ny <= y1
        invariant
            b == binary@,
            wi == w as int,
            hi == h as int,
            conn == connectivity as int,
            in_grid(cx as int, cy as int, wi, hi),
            pixels.len() > 0,
            pixels.last() == (cx, cy),
            x0 == (if cx >= 1 { cx - 1 } else { 0 }),
            x1 == (if cx + 1 < w { cx + 1 } else { w - 1 }),
            y0 == (if cy >= 1 { cy - 1 } else { 0 }),
            y1 == (if cy + 1 < h { cy + 1 } else { h - 1 }),
            y0 <= ny <= y1 + 1,
            fill_state(b, wi, hi, conn, v0, visited@, stack@, pixels, sx, sy),
            expanded_closed(b, wi, hi, conn, visited@, pixels, pixels.len() - 1),
            forall|i: int| 0 <= i < wi * hi && #[trigger] vin[i] ==> visited@[i],
            count_false(visited@) < count_false(vin) || stack@ == sin,
            count_false(visited@) <= count_false(vin),
            forall|qx: int, qy: int|
                in_grid(qx, qy, wi, hi) && qy < ny && #[trigger] adjacent(conn, cx as int, cy as int, qx, qy) && ink_at(b, wi, qx, qy)
                    ==> visited@[idx(qx, qy, wi)],
        decreases y1 + 1 - ny,
    {
        let mut nx = x0;
        while nx <= x1
            invariant
                b == binary@,
                wi == w as int,
                hi == h as int,
                conn == connectivity as int,
                in_grid(cx as int, cy as int, wi, hi),
                pixels.len() > 0,
                pixels.last() == (cx, cy),
                x0 == (if cx >= 1 { cx - 1 } else { 0 }),
                x1 == (if cx + 1 < w { cx + 1 } else { w - 1 }),
                y0 == (if cy >= 1 { cy - 1 } else { 0 }),
                y1 == (if cy + 1 < h { cy + 1 } else { h - 1 }),
                y0 <= ny <= y1,
                x0 <= nx <= x1 + 1,
                fill_state(b, wi, hi, conn, v0, visited@, stack@, pixels, sx, sy),
                expanded_closed(b, wi, hi, conn, visited@, pixels, pixels.len() - 1),
                forall|i: int| 0 <= i < wi * hi && #[trigger] vin[i] ==> visited@[i],
                count_false(visited@) < count_false(vin) || stack@ == sin,
            count_false(visited@) <= count_false(vin),
                forall|qx: int, qy: int|
                    in_grid(qx, qy, wi, hi) && (qy < ny || (qy == ny && qx < nx)) && #[trigger] adjacent(conn, cx as int, cy as int, qx, qy)
                        && ink_at(b, wi, qx, qy) ==> visited@[idx(qx, qy, wi)],
            decreases x1 + 1 - nx,
        {
            let ghost vb = visited@;
            let diag = nx != cx && ny != cy;
            if !((nx == cx && ny == cy) || (connectivity == 4 && diag)) {
                proof {
                    lemma_idx_bounds(nx as int, ny as int, wi, hi);
                    assert(binary@.len() == binary.len());
                }
                let j = ny * w + nx;
                if binary[j] == 0 && !visited[j] {
                    let ghost v1 = visited@;
                    let ghost s1 = stack@;
                    proof {
                        lemma_count_false_mark(v1, j as int);
                        assert(adjacent(conn, cx as int, cy as int, nx as int, ny as int));
                        assert(in_grid(pixels[pixels.len() - 1].0 as int, pixels[pixels.len() - 1].1 as int, wi, hi));
                        assert(fresh(v0, v1, wi, cx as int, cy as int));
                        assert(connected(b, wi, hi, conn, sx, sy, cx as int, cy as int));
                        lemma_connected_step(b, wi, hi, conn, sx, sy, cx as int, cy as int, nx as int, ny as int);
                    }
                    visited.set(j, true);
                    stack.push((nx, ny));
                    proof {
                        let v2 = visited@;
                        let s2 = stack@;
                        assert(expanded_closed(b, wi, hi, conn, v2, pixels, pixels.len() - 1)) by {
                            assert forall|t: int, qx: int, qy: int|
                                0 <= t < pixels.len() - 1 && in_grid(qx, qy, wi, hi) && #[trigger] adjacent(conn, pixels[t].0 as int, pixels[t].1 as int, qx, qy)
                                    && ink_at(b, wi, qx, qy) implies v2[idx(qx, qy, wi)] by {
                                lemma_idx_bounds(qx, qy, wi, hi);
                                assert(v1[idx(qx, qy, wi)]);
                            }
                        }
                        assert forall|x: int, y: int| in_grid(x, y, wi, hi) implies (#[trigger] fresh(v0, v2, wi, x, y) <==> (fresh(v0, v1, wi, x, y)
                            || (x == nx && y == ny))) by {
                            lemma_idx_bounds(x, y, wi, hi);
                            if !(x == nx && y == ny) {
                                crate::seedfill::lemma_pixel_distinct(x, y, nx as int, ny as int, wi, hi);
                            }
                        }
                        assert forall|t: int| 0 <= t < s2.len() implies in_grid(#[trigger] s2[t].0 as int, s2[t].1 as int, wi, hi) && fresh(
                            v0,
                            v2,
                            wi,
                            s2[t].0 as int,
                            s2[t].1 as int,
                        ) by {
                            if t < s1.len() {
                                assert(s2[t] == s1[t]);
                                assert(fresh(v0, v1, wi, s1[t].0 as int, s1[t].1 as int));
                            }
                        }
                        assert forall|t: int| 0 <= t < pixels.len() implies in_grid(#[trigger] pixels[t].0 as int, pixels[t].1 as int, wi, hi)
                            && fresh(v0, v2, wi, pixels[t].0 as int, pixels[t].1 as int) by {
                            assert(fresh(v0, v1, wi, pixels[t].0 as int, pixels[t].1 as int));
                        }
                        assert forall|x: int, y: int| in_grid(x, y, wi, hi) && #[trigger] fresh(v0, v2, wi, x, y) implies s2.contains(
                            (x as usize, y as usize),
                        ) || pixels.contains((x as usize, y as usize)) by {
                            if x == nx && y == ny {
                                assert(s2[s2.len() - 1] == (nx, ny));
                            } else {
                                assert(fresh(v0, v1, wi, x, y));
                                if s1.contains((x as usize, y as usize)) {
                                    let t = choose|t: int| 0 <= t < s1.len() && s1[t] == (x as usize, y as usize);
                                    assert(s2[t] == s1[t]);
                                }
                            }
                        }
                        assert forall|x: int, y: int| in_grid(x, y, wi, hi) && #[trigger] fresh(v0, v2, wi, x, y) implies connected(
                            b,
                            wi,
                            hi,
                            conn,
                            sx,
                            sy,
                            x,
                            y,
                        ) by {
                            if !(x == nx && y == ny) {
                                assert(fresh(v0, v1, wi, x, y));
                            }
                        }
                    }
                }
            }
            proof {
                assert forall|qx: int, qy: int|
                    in_grid(qx, qy, wi, hi) && (qy < ny || (qy == ny && qx < nx + 1)) && #[trigger] adjacent(conn, cx as int, cy as int, qx, qy)
                        && ink_at(b, wi, qx, qy) implies visited@[idx(qx, qy, wi)] by {
                    lemma_idx_bounds(qx, qy, wi, hi);
                    if !(qy == ny && qx == nx) {
                        assert(vb[idx(qx, qy, wi)]);
                    }
                }
            }
            nx += 1;
        }
        ny += 1;
    }
    proof {
        assert forall|t: int, qx: int, qy: int|
            0 <= t < pixels.len() && in_grid(qx, qy, wi, hi) && #[trigger] adjacent(conn, pixels[t].0 as int, pixels[t].1 as int, qx, qy)
                && ink_at(b, wi, qx, qy) implies visited@[idx(qx, qy, wi)] by {
            if t == pixels.len() - 1 {
                assert(pixels[t] == (cx, cy));
            }
        }
    }
}

/// The `cw × ch` sub-image at `(min_x, min_y)` marking exactly the listed
/// pixels as ink (`0`) and the rest as background (`255`).
fn component_mask(pixels: &Vec<(usize, usize)>, min_x: usize, min_y: usize, cw: usize, ch: usize) -> (mask: Vec<u8>)
    requires
        cw * ch <= usize::MAX,
        min_x + cw <= usize::MAX,
        min_y + ch <= usize::MAX,
        forall|t: int|
            0 <= t < pixels@.len() ==> min_x <= #[trigger] pixels@[t].0 < min_x + cw && min_y <= pixels@[t].1 < min_y + ch,
    ensures
        mask@.len() == cw * ch,
        forall|mx: int, my: int|
            0 <= mx < cw && 0 <= my < ch ==> (#[trigger] mask@[idx(mx, my, cw as int)] == 0 <==> pixels@.contains(
                ((min_x + mx) as usize, (min_y + my) as usize),
            )),
{
    let n = cw * ch;
    let mut mask: Vec<u8> = Vec::with_capacity(n);
    let mut i: usize = 0;
    while i < n
        invariant
            n == cw * ch,
            i <= n,
            mask@.len() == i,
            forall|k: int| 0 <= k < i ==> mask@[k] == 255,
        decreases n - i,
    {
        mask.push(255u8);
        i += 1;
    }
    let ghost cwi = cw as int;
    let ghost chi = ch as int;
    proof {
        assert forall|mx: int, my: int| 0 <= mx < cw && 0 <= my < ch implies (#[trigger] mask@[idx(mx, my, cwi)] == 0 <==> pixels@.subrange(
            0,
            0,
        ).contains(((min_x + mx) as usize, (min_y + my) as usize))) by {
            lemma_idx_bounds(mx, my, cwi, chi);
        }
    }
    let mut t: usize = 0;
    while t < pixels.len()
        invariant
            n == cw * ch,
            cwi == cw as int,
            chi == ch as int,
            min_x + cw <= usize::MAX,
            min_y + ch <= usize::MAX,
            mask@.len() == n,
            t <= pixels@.len(),
            forall|k: int|
                0 <= k < pixels@.len() ==> min_x <= #[trigger] pixels@[k].0 < min_x + cw && min_y <= pixels@[k].1 < min_y + ch,
            forall|mx: int, my: int|
                0 <= mx < cw && 0 <= my < ch ==> (#[trigger] mask@[idx(mx, my, cwi)] == 0 <==> pixels@.subrange(0, t as int).contains(
                    ((min_x + mx) as usize, (min_y + my) as usize),
                )),
        decreases pixels@.len() - t,
    {
        let (px, py) = pixels[t];
        proof {
            assert(min_x <= pixels@[t as int].0 < min_x + cw);
            lemma_idx_bounds((px - min_x) as int, (py - min_y) as int, cwi, chi);
        }
        let ghost m1 = mask@;
        let ghost pre = pixels@.subrange(0, t as int);
        mask.set((py - min_y) * cw + (px - min_x), 0);
        proof {
            let post = pixels@.subrange(0, t + 1);
            assert(post =~= pre.push((px, py)));
            assert forall|mx: int, my: int| 0 <= mx < cw && 0 <= my < ch implies (#[trigger] mask@[idx(mx, my, cwi)] == 0 <==> post.contains(
                ((min_x + mx) as usize, (min_y + my) as usize),
            )) by {
                let v = ((min_x + mx) as usize, (min_y + my) as usize);
                lemma_idx_bounds(mx, my, cwi, chi);
                if mx == px - min_x && my == py - min_y {
                    assert(post[t as int] == v);
                } else {
                    crate::seedfill::lemma_pixel_distinct(mx, my, (px - min_x) as int, (py - min_y) as int, cwi, chi);
                    assert(mask@[idx(mx, my, cwi)] == m1[idx(mx, my, cwi)]);
                    if pre.contains(v) {
                        let k = choose|k: int| 0 <= k < pre.len() && pre[k] == v;
                        assert(post[k] == v);
                    }
                    if post.contains(v) {
                        let k = choose|k: int| 0 <= k < post.len() && post[k] == v;
                        assert(k != t as int);
                        assert(pre[k] == v);
                    }
                }
            }
        }
        t += 1;
    }
    proof {
        assert(pixels@.subrange(0, pixels@.len() as int) =~= pixels@);
    }
    mask
}

/// Moving the top of the stack to the expanded list keeps the fill state.
proof fn lemma_pop_to_pixels(
    b: Seq<u8>,
    w: int,
    h: int,
    conn: int,
    v0: Seq<bool>,
    v: Seq<bool>,
    stack: Seq<(usize, usize)>,
    pixels: Seq<(usize, usize)>,
    sx: int,
    sy: int,
)
    requires
        fill_state(b, w, h, conn, v0, v, stack, pixels, sx, sy),
        expanded_closed(b, w, h, conn, v, pixels, pixels.len() as int),
        stack.len() > 0,
    ensures
        fill_state(b, w, h, conn, v0, v, stack.drop_last(), pixels.push(stack.last()), sx, sy),
        expanded_closed(b, w, h, conn, v, pixels.push(stack.last()), pixels.len() as int),
{
    let c = stack.last();
    let s2 = stack.drop_last();
    let p2 = pixels.push(c);
    assert(in_grid(stack[stack.len() - 1].0 as int, stack[stack.len() - 1].1 as int, w, h));
    assert forall|t: int| 0 <= t < s2.len() implies in_grid(#[trigger] s2[t].0 as int, s2[t].1 as int, w, h) && fresh(
        v0,
        v,
        w,
        s2[t].0 as int,
        s2[t].1 as int,
    ) by {
        assert(s2[t] == stack[t]);
        assert(in_grid(stack[t].0 as int, stack[t].1 as int, w, h));
    }
    assert forall|t: int| 0 <= t < p2.len() implies in_grid(#[trigger] p2[t].0 as int, p2[t].1 as int, w, h) && fresh(
        v0,
        v,
        w,
        p2[t].0 as int,
        p2[t].1 as int,
    ) by {
        if t < pixels.len() {
            assert(p2[t] == pixels[t]);
            assert(in_grid(pixels[t].0 as int, pixels[t].1 as int, w, h));
        }
    }
    assert forall|x: int, y: int| in_grid(x, y, w, h) && #[trigger] fresh(v0, v, w, x, y) implies s2.contains((x as usize, y as usize))
        || p2.contains((x as usize, y as usize)) by {
        if stack.contains((x as usize, y as usize)) {
            let t = choose|t: int| 0 <= t < stack.len() && stack[t] == (x as usize, y as usize);
            if t == stack.len() - 1 {
                assert(p2[pixels.len() as int] == c);
            } else {
                assert(s2[t] == stack[t]);
            }
        } else {
            let t = choose|t: int| 0 <= t < pixels.len() && pixels[t] == (x as usize, y as usize);
            assert(p2[t] == pixels[t]);
        }
    }
    assert forall|t: int, qx: int, qy: int|
        0 <= t < pixels.len() && in_grid(qx, qy, w, h) && #[trigger] adjacent(conn, p2[t].0 as int, p2[t].1 as int, qx, qy) && ink_at(b, w, qx, qy)
            implies v[idx(qx, qy, w)] by {
        assert(p2[t] == pixels[t]);
        assert(adjacent(conn, pixels[t].0 as int, pixels[t].1 as int, qx, qy));
    }
}

/// A finished fill (empty stack) from an unmarked seed, started from marks
/// closed under ink adjacency, has marked exactly the seed's component, all
/// of it now expanded, and leaves the marks closed.
#[verifier::spinoff_prover]
#[verifier::rlimit(40)]
proof fn lemma_fill_done(
    b: Seq<u8>,
    w: int,
    h: int,
    conn: int,
    v0: Seq<bool>,
    v: Seq<bool>,
    pixels: Seq<(usize, usize)>,
    sx: int,
    sy: int,
)
    requires
        fill_state(b, w, h, conn, v0, v, Seq::<(usize, usize)>::empty(), pixels, sx, sy),
        expanded_closed(b, w, h, conn, v, pixels, pixels.len() as int),
        marks_closed(b, w, h, conn, v0),
    ensures
        forall|x: int, y: int| in_grid(x, y, w, h) ==> (#[trigger] fresh(v0, v, w, x, y) <==> connected(b, w, h, conn, sx, sy, x, y)),
        forall|x: int, y: int| in_grid(x, y, w, h) ==> (#[trigger] fresh(v0, v, w, x, y) <==> pixels.contains((x as usize, y as usize))),
        marks_closed(b, w, h, conn, v),
{
    let st = Seq::<(usize, usize)>::empty();
    assert forall|x: int, y: int| in_grid(x, y, w, h) && #[trigger] fresh(v0, v, w, x, y) implies pixels.contains((x as usize, y as usize)) by {
        assert(!st.contains((x as usize, y as usize)));
    }
    assert forall|x: int, y: int| in_grid(x, y, w, h) && pixels.contains((x as usize, y as usize)) implies #[trigger] fresh(v0, v, w, x, y) by {
        let t = choose|t: int| 0 <= t < pixels.len() && pixels[t] == (x as usize, y as usize);
        assert(in_grid(pixels[t].0 as int, pixels[t].1 as int, w, h));
    }
    // A fresh pixel's ink neighbours are fresh.
    assert forall|px: int, py: int, qx: int, qy: int|
        in_grid(px, py, w, h) && in_grid(qx, qy, w, h) && #[trigger] adjacent(conn, px, py, qx, qy) && fresh(v0, v, w, px, py) && ink_at(b, w, qx, qy)
            implies fresh(v0, v, w, qx, qy) by {
        assert(pixels.contains((px as usize, py as usize)));
        let t = choose|t: int| 0 <= t < pixels.len() && pixels[t] == (px as usize, py as usize);
        assert(adjacent(conn, pixels[t].0 as int, pixels[t].1 as int, qx, qy));
        lemma_idx_bounds(px, py, w, h);
        lemma_idx_bounds(qx, qy, w, h);
        if v0[idx(qx, qy, w)] {
            assert(adjacent(conn, qx, qy, px, py));
            assert(v[idx(px, py, w)]);
            assert(b[idx(px, py, w)] == 0);
            assert(v0[idx(px, py, w)]);
        }
    }
    let comp = Set::new(|p: (int, int)| in_grid(p.0, p.1, w, h) && fresh(v0, v, w, p.0, p.1));
    assert forall|x: int, y: int, qx: int, qy: int|
        #[trigger] comp.contains((x, y)) && in_grid(qx, qy, w, h) && #[trigger] adjacent(conn, x, y, qx, qy) && ink_at(b, w, qx, qy)
            implies comp.contains((qx, qy)) by {
        assert(fresh(v0, v, w, qx, qy));
    }
    assert(ink_closed(comp, b, w, h, conn));
    assert(comp.contains((sx, sy)));
    assert forall|x: int, y: int| in_grid(x, y, w, h) implies (#[trigger] fresh(v0, v, w, x, y) <==> connected(b, w, h, conn, sx, sy, x, y)) by {
        if connected(b, w, h, conn, sx, sy, x, y) {
            assert(comp.contains((x, y)));
        }
    }
    assert forall|px: int, py: int, qx: int, qy: int|
        in_grid(px, py, w, h) && in_grid(qx, qy, w, h) && #[trigger] adjacent(conn, px, py, qx, qy) && v[idx(px, py, w)] && ink_at(b, w, qx, qy)
            implies v[idx(qx, qy, w)] by {
        lemma_idx_bounds(px, py, w, h);
        lemma_idx_bounds(qx, qy, w, h);
        if v0[idx(px, py, w)] {
            assert(v0[idx(qx, qy, w)]);
        } else {
            assert(fresh(v0, v, w, px, py));
            assert(fresh(v0, v, w, qx, qy));
        }
    }
}

/// One extracted connected component: bounding-box origin and size, and
/// the component's own pixels as a `w × h` sub-image (`0` = ink).
struct Component {
    x: usize,
    y: usize,
    w: usize,
    h: usize,
    mask: Vec<u8>,
}

/// Component pixel `(mx, my)` of `c`'s own frame is ink.
spec fn mask_ink(c: Component, mx: int, my: int) -> bool {
    c.mask@[idx(mx, my, c.w as int)] == 0
}

/// `c` is the component of the ink pixel `(sx, sy)`: its box is the
/// component's bounding box and its mask marks exactly the component.
spec fn comp_ok(c: Component, b: Seq<u8>, w: int, h: int, conn: int, sx: int, sy: int) -> bool {
    &&& in_grid(sx, sy, w, h) && ink_at(b, w, sx, sy)
    &&& is_box_of(comp_of(b, w, h, conn, sx, sy), w, h, c.x as int, c.y as int, c.w as int, c.h as int)
    &&& c.mask@.len() == c.w * c.h
    &&& forall|mx: int, my: int|
        0 <= mx < c.w && 0 <= my < c.h ==> (#[trigger] mask_ink(c, mx, my) <==> connected(b, w, h, conn, sx, sy, c.x + mx, c.y + my))
}

/// `cs` are components grown from `seeds`, and every ink pixel is connected
/// to one of the seeds.
spec fn comps_ok(cs: Seq<Component>, seeds: Seq<(int, int)>, b: Seq<u8>, w: int, h: int, conn: int) -> bool {
    &&& seeds.len() == cs.len()
    &&& forall|k: int| 0 <= k < cs.len() ==> comp_ok(#[trigger] cs[k], b, w, h, conn, seeds[k].0, seeds[k].1)
    &&& forall|x: int, y: int|
        in_grid(x, y, w, h) && #[trigger] ink_at(b, w, x, y) ==> exists|k: int| 0 <= k < cs.len() && #[trigger] connected(b, w, h, conn, seeds[k].0, seeds[k].1, x, y)
}

/// Between two fills: the marks are closed and are exactly the pixels owned
/// by an extracted component, each owned pixel connected to its owner's
/// seed.
spec fn scan_ok(b: Seq<u8>, w: int, h: int, conn: int, v: Seq<bool>, owner: Seq<int>, cs: Seq<Component>, seeds: Seq<(int, int)>) -> bool {
    &&& b.len() == w * h && v.len() == w * h && owner.len() == w * h
    &&& 0 <= w <= usize::MAX && 0 <= h <= usize::MAX
    &&& conn == 4 || conn == 8
    &&& seeds.len() == cs.len()
    &&& forall|k: int| 0 <= k < cs.len() ==> comp_ok(#[trigger] cs[k], b, w, h, conn, seeds[k].0, seeds[k].1)
    &&& forall|i: int| 0 <= i < w * h ==> (#[trigger] v[i] <==> 0 <= owner[i]) && (v[i] ==> b[i] == 0) && owner[i] < cs.len()
    &&& forall|x: int, y: int|
        in_grid(x, y, w, h) && 0 <= #[trigger] owner[idx(x, y, w)] ==> connected(
            b,
            w,
            h,
            conn,
            seeds[owner[idx(x, y, w)]].0,
            seeds[owner[idx(x, y, w)]].1,
            x,
            y,
        )
    &&& marks_closed(b, w, h, conn, v)
}

/// Every ink pixel before `(sx, sy)` in raster order is marked.
spec fn scanned(b: Seq<u8>, w: int, h: int, v: Seq<bool>, sx: int, sy: int) -> bool {
    forall|x: int, y: int| in_grid(x, y, w, h) && (y < sy || (y == sy && x < sx)) && #[trigger] ink_at(b, w, x, y) ==> v[idx(x, y, w)]
}

/// Flood-fill the component of the unmarked ink pixel `(sx, sy)` with an
/// explicit stack, marking it, and return it with its bounding box and its
/// own mask; `pixels` collects the component's pixels.
#[verifier::spinoff_prover]
#[verifier::rlimit(40)]
fn grow_component(
    binary: &[u8],
    w: usize,
    h: usize,
    connectivity: u32,
    visited: &mut Vec<bool>,
    stack: &mut Vec<(usize, usize)>,
    pixels: &mut Vec<(usize, usize)>,
    sx: usize,
    sy: usize,
) -> (c: Component)
    requires
        binary@.len() == w * h,
        connectivity == 4 || connectivity == 8,
        old(visited)@.len() == w * h,
        forall|i: int| 0 <= i < w * h && #[trigger] old(visited)@[i] ==> binary@[i] == 0,
        marks_closed(binary@, w as int, h as int, connectivity as int, old(visited)@),
        in_grid(sx as int, sy as int, w as int, h as int),
        ink_at(binary@, w as int, sx as int, sy as int),
        !old(visited)@[idx(sx as int, sy as int, w as int)],
        old(stack)@.len() == 0,
    ensures
        final(stack)@.len() == 0,
        final(visited)@.len() == w * h,
        comp_ok(c, binary@, w as int, h as int, connectivity as int, sx as int, sy as int),
        forall|x: int, y: int|
            in_grid(x, y, w as int, h as int) ==> (#[trigger] fresh(old(visited)@, final(visited)@, w as int, x, y) <==> connected(
                binary@,
                w as int,
                h as int,
                connectivity as int,
                sx as int,
                sy as int,
                x,
                y,
            )),
        forall|i: int| 0 <= i < w * h && #[trigger] old(visited)@[i] ==> final(visited)@[i],
        forall|i: int| 0 <= i < w * h && #[trigger] final(visited)@[i] ==> binary@[i] == 0,
        marks_closed(binary@, w as int, h as int, connectivity as int, final(visited)@),
{
    let ghost b = binary@;
    let ghost wi = w as int;
    let ghost hi = h as int;
    let ghost conn = connectivity as int;
    let ghost v0 = visited@;
    pixels.clear();
    proof {
        lemma_idx_bounds(sx as int, sy as int, wi, hi);
        assert(binary@.len() == binary.len());
    }
    let start = sy * w + sx;
    visited.set(start, true);
    stack.push((sx, sy));
    let mut min_x = sx;
    let mut min_y = sy;
    let mut max_x = sx;
    let mut max_y = sy;
    let ghost mut wl = (sx as int, sy as int);
    let ghost mut wr = (sx as int, sy as int);
    let ghost mut wt = (sx as int, sy as int);
    let ghost mut wb = (sx as int, sy as int);
    proof {
        let v1 = visited@;
        assert forall|x: int, y: int| in_grid(x, y, wi, hi) implies (#[trigger] fresh(v0, v1, wi, x, y) <==> (x == sx && y == sy)) by {
            lemma_idx_bounds(x, y, wi, hi);
            if !(x == sx && y == sy) {
                crate::seedfill::lemma_pixel_distinct(x, y, sx as int, sy as int, wi, hi);
            }
        }
        assert(connected(b, wi, hi, conn, sx as int, sy as int, sx as int, sy as int));
        assert(stack@[0] == (sx, sy));
        assert forall|x: int, y: int| in_grid(x, y, wi, hi) && #[trigger] fresh(v0, v1, wi, x, y) implies stack@.contains((x as usize, y as usize))
            || pixels@.contains((x as usize, y as usize)) by {
            assert(stack@[0] == (x as usize, y as usize));
        }
        assert(fill_state(b, wi, hi, conn, v0, v1, stack@, pixels@, sx as int, sy as int));
    }
    loop
        invariant
            b == binary@,
            wi == w as int,
            hi == h as int,
            conn == connectivity as int,
            fill_state(b, wi, hi, conn, v0, visited@, stack@, pixels@, sx as int, sy as int),
            expanded_closed(b, wi, hi, conn, visited@, pixels@, pixels@.len() as int),
            marks_closed(b, wi, hi, conn, v0),
            min_x <= sx <= max_x < w,
            min_y <= sy <= max_y < h,
            forall|t: int|
                0 <= t < pixels@.len() ==> min_x <= #[trigger] pixels@[t].0 <= max_x && min_y <= pixels@[t].1 <= max_y,
            in_grid(wl.0, wl.1, wi, hi) && fresh(v0, visited@, wi, wl.0, wl.1) && wl.0 == min_x,
            in_grid(wr.0, wr.1, wi, hi) && fresh(v0, visited@, wi, wr.0, wr.1) && wr.0 == max_x,
            in_grid(wt.0, wt.1, wi, hi) && fresh(v0, visited@, wi, wt.0, wt.1) && wt.1 == min_y,
            in_grid(wb.0, wb.1, wi, hi) && fresh(v0, visited@, wi, wb.0, wb.1) && wb.1 == max_y,
        ensures
            stack@.len() == 0,
            fill_state(b, wi, hi, conn, v0, visited@, stack@, pixels@, sx as int, sy as int),
            expanded_closed(b, wi, hi, conn, visited@, pixels@, pixels@.len() as int),
            min_x <= sx <= max_x < w,
            min_y <= sy <= max_y < h,
            forall|t: int|
                0 <= t < pixels@.len() ==> min_x <= #[trigger] pixels@[t].0 <= max_x && min_y <= pixels@[t].1 <= max_y,
            in_grid(wl.0, wl.1, wi, hi) && fresh(v0, visited@, wi, wl.0, wl.1) && wl.0 == min_x,
            in_grid(wr.0, wr.1, wi, hi) && fresh(v0, visited@, wi, wr.0, wr.1) && wr.0 == max_x,
            in_grid(wt.0, wt.1, wi, hi) && fresh(v0, visited@, wi, wt.0, wt.1) && wt.1 == min_y,
            in_grid(wb.0, wb.1, wi, hi) && fresh(v0, visited@, wi, wb.0, wb.1) && wb.1 == max_y,
        decreases count_false(visited@), stack@.len(),
    {
        let ghost st0 = stack@;
        let ghost px0 = pixels@;
        match stack.pop() {
            None => {
                break;
            },
            Some((cx, cy)) => {
                proof {
                    lemma_pop_to_pixels(b, wi, hi, conn, v0, visited@, st0, px0, sx as int, sy as int);
                }
                pixels.push((cx, cy));
                proof {
                    assert(pixels@ == px0.push(st0.last()));
                    assert(in_grid(pixels@[pixels@.len() - 1].0 as int, pixels@[pixels@.len() - 1].1 as int, wi, hi));
                    assert(fresh(v0, visited@, wi, cx as int, cy as int));
                }
                if cx < min_x {
                    min_x = cx;
                    proof {
                        wl = (cx as int, cy as int);
                    }
                }
                if cx > max_x {
                    max_x = cx;
                    proof {
                        wr = (cx as int, cy as int);
                    }
                }
                if cy < min_y {
                    min_y = cy;
                    proof {
                        wt = (cx as int, cy as int);
                    }
                }
                if cy > max_y {
                    max_y = cy;
                    proof {
                        wb = (cx as int, cy as int);
                    }
                }
                proof {
                    assert forall|t: int| 0 <= t < pixels@.len() implies min_x <= #[trigger] pixels@[t].0 <= max_x && min_y <= pixels@[t].1
                        <= max_y by {
                        if t < px0.len() {
                            assert(pixels@[t] == px0[t]);
                        }
                    }
                }
                let ghost vb = visited@;
                visit_neighbours(binary, w, h, connectivity, visited, stack, cx, cy, Ghost(v0), Ghost(pixels@), Ghost(sx as int), Ghost(sy as int));
                proof {
                    lemma_idx_bounds(wl.0, wl.1, wi, hi);
                    lemma_idx_bounds(wr.0, wr.1, wi, hi);
                    lemma_idx_bounds(wt.0, wt.1, wi, hi);
                    lemma_idx_bounds(wb.0, wb.1, wi, hi);
                    assert(vb[idx(wl.0, wl.1, wi)]);
                    assert(vb[idx(wr.0, wr.1, wi)]);
                    assert(vb[idx(wt.0, wt.1, wi)]);
                    assert(vb[idx(wb.0, wb.1, wi)]);
                }
            },
        }
    }
    proof {
        assert(stack@ =~= Seq::<(usize, usize)>::empty());
        lemma_fill_done(b, wi, hi, conn, v0, visited@, pixels@, sx as int, sy as int);
        crate::grid::lemma_mul_mono((max_x - min_x + 1) as int, (max_y - min_y + 1) as int, wi, hi);
        assert(binary@.len() == binary.len());
    }
    let cw = max_x - min_x + 1;
    let ch = max_y - min_y + 1;
    proof {
        assert forall|t: int| 0 <= t < pixels@.len() implies min_x <= #[trigger] pixels@[t].0 < min_x + cw && min_y <= pixels@[t].1 < min_y
            + ch by {
            assert(min_x <= pixels@[t].0 <= max_x && min_y <= pixels@[t].1 <= max_y);
        }
    }
    let mask = component_mask(pixels, min_x, min_y, cw, ch);
    let c = Component { x: min_x, y: min_y, w: cw, h: ch, mask };
    proof {
        let v = visited@;
        let m = comp_of(b, wi, hi, conn, sx as int, sy as int);
        assert forall|x: int, y: int| in_grid(x, y, wi, hi) && #[trigger] m(x, y) implies min_x <= x < min_x + cw && min_y <= y < min_y + ch by {
            assert(fresh(v0, v, wi, x, y));
            assert(pixels@.contains((x as usize, y as usize)));
            let t = choose|t: int| 0 <= t < pixels@.len() && pixels@[t] == (x as usize, y as usize);
            assert(min_x <= pixels@[t].0 <= max_x && min_y <= pixels@[t].1 <= max_y);
        }
        assert(fresh(v0, v, wi, wl.0, wl.1));
        assert(m(min_x as int, wl.1));
        assert(fresh(v0, v, wi, wr.0, wr.1));
        assert(m(min_x + cw - 1, wr.1));
        assert(fresh(v0, v, wi, wt.0, wt.1));
        assert(m(wt.0, min_y as int));
        assert(fresh(v0, v, wi, wb.0, wb.1));
        assert(m(wb.0, min_y + ch - 1));
        assert(is_box_of(m, wi, hi, c.x as int, c.y as int, c.w as int, c.h as int));
        assert forall|mx: int, my: int| 0 <= mx < c.w && 0 <= my < c.h implies (#[trigger] mask_ink(c, mx, my) <==> connected(
            b,
            wi,
            hi,
            conn,
            sx as int,
            sy as int,
            c.x + mx,
            c.y + my,
        )) by {
            assert(c.mask@[idx(mx, my, cw as int)] == 0 <==> pixels@.contains(((min_x + mx) as usize, (min_y + my) as usize)));
            assert(in_grid(min_x + mx, min_y + my, wi, hi));
            assert(fresh(v0, v, wi, min_x + mx, min_y + my) <==> pixels@.contains(((min_x + mx) as usize, (min_y + my) as usize)));
        }
        assert forall|i: int| 0 <= i < wi * hi && #[trigger] v0[i] implies v[i] by {}
    }
    c
}

/// Recording a freshly grown component as the owner of the pixels it marked
/// keeps the scan state.
proof fn lemma_scan_add(
    b: Seq<u8>,
    w: int,
    h: int,
    conn: int,
    v0: Seq<bool>,
    v: Seq<bool>,
    owner: Seq<int>,
    cs: Seq<Component>,
    seeds: Seq<(int, int)>,
    c: Component,
    sx: int,
    sy: int,
) -> (owner2: Seq<int>)
    requires
        scan_ok(b, w, h, conn, v0, owner, cs, seeds),
        comp_ok(c, b, w, h, conn, sx, sy),
        v.len() == w * h,
        forall|x: int, y: int| in_grid(x, y, w, h) ==> (#[trigger] fresh(v0, v, w, x, y) <==> connected(b, w, h, conn, sx, sy, x, y)),
        forall|i: int| 0 <= i < w * h && #[trigger] v0[i] ==> v[i],
        forall|i: int| 0 <= i < w * h && #[trigger] v[i] ==> b[i] == 0,
        marks_closed(b, w, h, conn, v),
    ensures
        scan_ok(b, w, h, conn, v, owner2, cs.push(c), seeds.push((sx, sy))),
{
    let k = cs.len() as int;
    let owner2 = Seq::new((w * h) as nat, |i: int| if v[i] && !v0[i] { k } else { owner[i] });
    let cs2 = cs.push(c);
    let seeds2 = seeds.push((sx, sy));
    assert forall|j: int| 0 <= j < cs2.len() implies comp_ok(#[trigger] cs2[j], b, w, h, conn, seeds2[j].0, seeds2[j].1) by {
        if j < k {
            assert(cs2[j] == cs[j] && seeds2[j] == seeds[j]);
        }
    }
    assert forall|i: int| 0 <= i < w * h implies (#[trigger] v[i] <==> 0 <= owner2[i]) && (v[i] ==> b[i] == 0) && owner2[i] < cs2.len() by {
        assert(v0[i] <==> 0 <= owner[i]);
    }
    assert forall|x: int, y: int| in_grid(x, y, w, h) && 0 <= #[trigger] owner2[idx(x, y, w)] implies connected(
        b,
        w,
        h,
        conn,
        seeds2[owner2[idx(x, y, w)]].0,
        seeds2[owner2[idx(x, y, w)]].1,
        x,
        y,
    ) by {
        lemma_idx_bounds(x, y, w, h);
        let i = idx(x, y, w);
        if v[i] && !v0[i] {
            assert(fresh(v0, v, w, x, y));
            assert(seeds2[k] == (sx, sy));
        } else {
            assert(owner2[i] == owner[i]);
            assert(seeds2[owner[i]] == seeds[owner[i]]);
        }
    }
    owner2
}

/// Label the 4- or 8-connected ink components with a raster scan and a
/// stack-based flood fill, and extract each as its own sub-image (its
/// pixels only, cropped to its bounding box), in raster order of their
/// first pixel.
#[verifier::spinoff_prover]
#[verifier::rlimit(40)]
fn extract_components(binary: &[u8], w: usize, h: usize, connectivity: u32) -> (out: Vec<Component>)
    requires
        binary@.len() == w * h,
        connectivity == 4 || connectivity == 8,
    ensures
        exists|seeds: Seq<(int, int)>| #[trigger] comps_ok(out@, seeds, binary@, w as int, h as int, connectivity as int),
{
    let ghost b = binary@;
    let ghost wi = w as int;
    let ghost hi = h as int;
    let ghost conn = connectivity as int;
    proof {
        assert(binary@.len() == binary.len());
    }
    let n = w * h;
    let mut visited: Vec<bool> = Vec::with_capacity(n);
    let mut i: usize = 0;
    while i < n
        invariant
            i <= n,
            visited@.len() == i,
            forall|j: int| 0 <= j < i ==> !visited@[j],
        decreases n - i,
    {
        visited.push(false);
        i += 1;
    }
    let mut out: Vec<Component> = Vec::new();
    let mut stack: Vec<(usize, usize)> = Vec::new();
    let mut pixels: Vec<(usize, usize)> = Vec::new();
    let ghost mut owner: Seq<int> = Seq::new(n as nat, |j: int| -1int);
    let ghost mut seeds: Seq<(int, int)> = Seq::empty();
    proof {
        assert forall|px: int, py: int, qx: int, qy: int|
            in_grid(px, py, wi, hi) && in_grid(qx, qy, wi, hi) && #[trigger] adjacent(conn, px, py, qx, qy) && visited@[idx(px, py, wi)] && ink_at(
                b,
                wi,
                qx,
                qy,
            ) implies visited@[idx(qx, qy, wi)] by {
            lemma_idx_bounds(px, py, wi, hi);
        }
        assert forall|x: int, y: int| in_grid(x, y, wi, hi) && 0 <= #[trigger] owner[idx(x, y, wi)] implies connected(
            b,
            wi,
            hi,
            conn,
            seeds[owner[idx(x, y, wi)]].0,
            seeds[owner[idx(x, y, wi)]].1,
            x,
            y,
        ) by {
            lemma_idx_bounds(x, y, wi, hi);
        }
        assert(scan_ok(b, wi, hi, conn, visited@, owner, out@, seeds));
    }
    let mut sy: usize = 0;
    while sy < h
        invariant
            b == binary@,
            wi == w as int,
            hi == h as int,
            conn == connectivity as int,
            n == w * h,
            sy <= h,
            stack@.len() == 0,
            scan_ok(b, wi, hi, conn, visited@, owner, out@, seeds),
            scanned(b, wi, hi, visited@, 0, sy as int),
        decreases h - sy,
    {
        let mut sx: usize = 0;
        while sx < w
            invariant
                b == binary@,
                wi == w as int,
                hi == h as int,
                conn == connectivity as int,
                n == w * h,
                sy < h,
                sx <= w,
                stack@.len() == 0,
                scan_ok(b, wi, hi, conn, visited@, owner, out@, seeds),
                scanned(b, wi, hi, visited@, sx as int, sy as int),
            decreases w - sx,
        {
            proof {
                lemma_idx_bounds(sx as int, sy as int, wi, hi);
            }
            let here = sy * w + sx;
            let ghost v0 = visited@;
            if binary[here] == 0 && !visited[here] {
                let c = grow_component(binary, w, h, connectivity, &mut visited, &mut stack, &mut pixels, sx, sy);
                proof {
                    assert(connected(b, wi, hi, conn, sx as int, sy as int, sx as int, sy as int));
                    assert(fresh(v0, visited@, wi, sx as int, sy as int));
                    owner = lemma_scan_add(b, wi, hi, conn, v0, visited@, owner, out@, seeds, c, sx as int, sy as int);
                    seeds = seeds.push((sx as int, sy as int));
                }
                out.push(c);
            }
            proof {
                assert forall|x: int, y: int| in_grid(x, y, wi, hi) && (y < sy || (y == sy && x < sx + 1)) && #[trigger] ink_at(b, wi, x, y)
                    implies visited@[idx(x, y, wi)] by {
                    lemma_idx_bounds(x, y, wi, hi);
                    if !(y == sy && x == sx) {
                        assert(v0[idx(x, y, wi)]);
                    }
                }
            }
            sx += 1;
        }
        sy += 1;
    }
    proof {
        assert forall|x: int, y: int| in_grid(x, y, wi, hi) && #[trigger] ink_at(b, wi, x, y) implies exists|k: int|
            0 <= k < out@.len() && #[trigger] connected(b, wi, hi, conn, seeds[k].0, seeds[k].1, x, y) by {
            lemma_idx_bounds(x, y, wi, hi);
            assert(visited@[idx(x, y, wi)]);
            let k = owner[idx(x, y, wi)];
            assert(0 <= owner[idx(x, y, wi)]);
            assert(connected(b, wi, hi, conn, seeds[k].0, seeds[k].1, x, y));
        }
        assert(comps_ok(out@, seeds, b, wi, hi, conn));
    }
    out
}

/// Pixel `(x, y)` of the page is ink of component `c` and `c` passes the
/// filter.
spec fn painted(c: Component, f: SizeFilter, x: int, y: int) -> bool {
    &&& keeps(f, c.w as int, c.h as int)
    &&& c.x <= x < c.x + c.w && c.y <= y < c.y + c.h
    &&& mask_ink(c, x - c.x, y - c.y)
}

/// Paint the ink of component `c` into the `w`-wide page `out` at the
/// component's box.
fn paint_component(out: &mut Vec<u8>, w: usize, h: usize, c: &Component)
    requires
        old(out)@.len() == w * h,
        c.mask@.len() == c.w * c.h,
        c.x + c.w <= w,
        c.y + c.h <= h,
    ensures
        final(out)@.len() == w * h,
        forall|x: int, y: int|
            in_grid(x, y, w as int, h as int) ==> #[trigger] final(out)@[idx(x, y, w as int)] == if c.x <= x < c.x + c.w && c.y <= y < c.y + c.h
                && mask_ink(*c, x - c.x, y - c.y) {
                0u8
            } else {
                old(out)@[idx(x, y, w as int)]
            },
{
    let ghost o0 = out@;
    let ghost wi = w as int;
    let ghost hi = h as int;
    let mut yy: usize = 0;
    while yy < c.h
        invariant
            wi == w as int,
            hi == h as int,
            out@.len() == w * h,
            c.mask@.len() == c.w * c.h,
            c.x + c.w <= w,
            c.y + c.h <= h,
            yy <= c.h,
            forall|x: int, y: int|
                in_grid(x, y, wi, hi) ==> #[trigger] out@[idx(x, y, wi)] == if c.x <= x < c.x + c.w && c.y <= y < c.y + yy && mask_ink(
                    *c,
                    x - c.x,
                    y - c.y,
                ) {
                    0u8
                } else {
                    o0[idx(x, y, wi)]
                },
        decreases c.h - yy,
    {
        let mut xx: usize = 0;
        while xx < c.w
            invariant
                wi == w as int,
                hi == h as int,
                out@.len() == w * h,
                c.mask@.len() == c.w * c.h,
                c.x + c.w <= w,
                c.y + c.h <= h,
                yy < c.h,
                xx <= c.w,
                forall|x: int, y: int|
                    in_grid(x, y, wi, hi) ==> #[trigger] out@[idx(x, y, wi)] == if c.x <= x < c.x + c.w && (c.y <= y < c.y + yy || (y == c.y + yy
                        && x < c.x + xx)) && mask_ink(*c, x - c.x, y - c.y) {
                        0u8
                    } else {
                        o0[idx(x, y, wi)]
                    },
            decreases c.w - xx,
        {
            proof {
                lemma_idx_bounds(xx as int, yy as int, c.w as int, c.h as int);
                lemma_idx_bounds((c.x + xx) as int, (c.y + yy) as int, wi, hi);
                assert(c.mask@.len() == c.mask.len());
                assert(out@.len() == out.len());
            }
            let ghost o1 = out@;
            if c.mask[yy * c.w + xx] == 0 {
                out.set((c.y + yy) * w + (c.x + xx), 0);
            }
            proof {
                let px = (c.x + xx) as int;
                let py = (c.y + yy) as int;
                assert forall|x: int, y: int| in_grid(x, y, wi, hi) implies #[trigger] out@[idx(x, y, wi)] == if c.x <= x < c.x + c.w && (c.y <= y
                    < c.y + yy || (y == c.y + yy && x < c.x + xx + 1)) && mask_ink(*c, x - c.x, y - c.y) {
                    0u8
                } else {
                    o0[idx(x, y, wi)]
                } by {
                    lemma_idx_bounds(x, y, wi, hi);
                    if !(x == px && y == py) {
                        crate::seedfill::lemma_pixel_distinct(x, y, px, py, wi, hi);
                        assert(out@[idx(x, y, wi)] == o1[idx(x, y, wi)]);
                    } else {
                        assert(mask_ink(*c, xx as int, yy as int) == (c.mask@[(yy * c.w + xx) as int] == 0));
                    }
                }
            }
            xx += 1;
        }
        yy += 1;
    }
}

/// Keep exactly the 4- or 8-connected ink components whose bounding box
/// passes the size filter: the result, of the input's
/// size, holds as ink exactly the ink pixels whose component passes, and
/// background (`255`) everywhere else. `None` when `connectivity` is
/// neither 4 nor 8.
#[verifier::spinoff_prover]
#[verifier::rlimit(40)]
pub fn select_by_size(binary: &[u8], w: usize, h: usize, connectivity: u32, filter: SizeFilter) -> (r: Option<Vec<u8>>)
    requires
        binary@.len() == w * h,
    ensures
        r is None <==> !(connectivity == 4 || connectivity == 8),
        r matches Some(out) ==> {
            &&& out@.len() == w * h
            &&& forall|x: int, y: int|
                in_grid(x, y, w as int, h as int) ==> #[trigger] out@[idx(x, y, w as int)] == if ink_at(binary@, w as int, x, y) && kept_at(
                    binary@,
                    w as int,
                    h as int,
                    connectivity as int,
                    filter,
                    x,
                    y,
                ) {
                    0u8
                } else {
                    255u8
                }
        },
{
    if connectivity != 4 && connectivity != 8 {
        return None;
    }
    let ghost b = binary@;
    let ghost wi = w as int;
    let ghost hi = h as int;
    let ghost conn = connectivity as int;
    proof {
        assert(binary@.len() == binary.len());
    }
    let n = w * h;
    let mut out: Vec<u8> = Vec::with_capacity(n);
    let mut i: usize = 0;
    while i < n
        invariant
            i <= n,
            out@.len() == i,
            forall|j: int| 0 <= j < i ==> out@[j] == 255u8,
        decreases n - i,
    {
        out.push(255u8);
        i += 1;
    }
    let comps = extract_components(binary, w, h, connectivity);
    let ghost seeds = choose|seeds: Seq<(int, int)>| #[trigger] comps_ok(comps@, seeds, b, wi, hi, conn);
    proof {
        assert forall|x: int, y: int| in_grid(x, y, wi, hi) implies #[trigger] out@[idx(x, y, wi)] == if exists|j: int|
            0 <= j < 0 && #[trigger] painted(comps@[j], filter, x, y) {
            0u8
        } else {
            255u8
        } by {
            lemma_idx_bounds(x, y, wi, hi);
        }
    }
    let mut k: usize = 0;
    while k < comps.len()
        invariant
            b == binary@,
            wi == w as int,
            hi == h as int,
            conn == connectivity as int,
            out@.len() == w * h,
            k <= comps@.len(),
            comps_ok(comps@, seeds, b, wi, hi, conn),
            forall|x: int, y: int|
                in_grid(x, y, wi, hi) ==> #[trigger] out@[idx(x, y, wi)] == if exists|j: int| 0 <= j < k && #[trigger] painted(comps@[j], filter, x, y) {
                    0u8
                } else {
                    255u8
                },
        decreases comps@.len() - k,
    {
        let comp = &comps[k];
        let w_ok = filter.relation.holds(comp.w, filter.width);
        let h_ok = filter.relation.holds(comp.h, filter.height);
        let keep = match filter.select_type {
            SelectType::Width => w_ok,
            SelectType::Height => h_ok,
            SelectType::IfEither => w_ok || h_ok,
            SelectType::IfBoth => w_ok && h_ok,
        };
        let ghost o1 = out@;
        proof {
            assert(comp_ok(comps@[k as int], b, wi, hi, conn, seeds[k as int].0, seeds[k as int].1));
        }
        if keep {
            paint_component(&mut out, w, h, comp);
        }
        proof {
            assert(keep == keeps(filter, comp.w as int, comp.h as int));
            assert forall|x: int, y: int| in_grid(x, y, wi, hi) implies #[trigger] out@[idx(x, y, wi)] == if exists|j: int|
                0 <= j < k + 1 && #[trigger] painted(comps@[j], filter, x, y) {
                0u8
            } else {
                255u8
            } by {
                if painted(comps@[k as int], filter, x, y) {
                    assert(out@[idx(x, y, wi)] == 0u8);
                } else {
                    assert(out@[idx(x, y, wi)] == o1[idx(x, y, wi)]);
                    if exists|j: int| 0 <= j < k + 1 && #[trigger] painted(comps@[j], filter, x, y) {
                        let j = choose|j: int| 0 <= j < k + 1 && #[trigger] painted(comps@[j], filter, x, y);
                        assert(j < k);
                    }
                }
            }
        }
        k += 1;
    }
    proof {
        assert forall|x: int, y: int| in_grid(x, y, wi, hi) implies #[trigger] out@[idx(x, y, wi)] == if ink_at(b, wi, x, y) && kept_at(
            b,
            wi,
            hi,
            conn,
            filter,
            x,
            y,
        ) {
            0u8
        } else {
            255u8
        } by {
            let any = exists|j: int| 0 <= j < comps@.len() && #[trigger] painted(comps@[j], filter, x, y);
            if any {
                let j = choose|j: int| 0 <= j < comps@.len() && #[trigger] painted(comps@[j], filter, x, y);
                let c = comps@[j];
                let (sx, sy) = seeds[j];
                assert(comp_ok(c, b, wi, hi, conn, sx, sy));
                assert(mask_ink(c, x - c.x, y - c.y));
                assert(connected(b, wi, hi, conn, sx, sy, x, y));
                lemma_connected_ink(b, wi, hi, conn, sx, sy, x, y);
                lemma_same_component(b, wi, hi, conn, sx, sy, x, y);
                lemma_box_transfer(comp_of(b, wi, hi, conn, sx, sy), comp_of(b, wi, hi, conn, x, y), wi, hi, c.x as int, c.y as int, c.w as int,
                    c.h as int);
                assert(is_box_of(comp_of(b, wi, hi, conn, x, y), wi, hi, c.x as int, c.y as int, c.w as int, c.h as int));
                assert(kept_at(b, wi, hi, conn, filter, x, y));
            } else if ink_at(b, wi, x, y) && kept_at(b, wi, hi, conn, filter, x, y) {
                let k0 = choose|k: int| 0 <= k < comps@.len() && #[trigger] connected(b, wi, hi, conn, seeds[k].0, seeds[k].1, x, y);
                let c = comps@[k0];
                let (sx, sy) = seeds[k0];
                assert(comp_ok(c, b, wi, hi, conn, sx, sy));
                lemma_same_component(b, wi, hi, conn, sx, sy, x, y);
                lemma_box_transfer(comp_of(b, wi, hi, conn, sx, sy), comp_of(b, wi, hi, conn, x, y), wi, hi, c.x as int, c.y as int, c.w as int,
                    c.h as int);
                let (bx, by, bw, bh) = choose|bx: int, by: int, bw: int, bh: int| #[trigger] is_box_of(comp_of(b, wi, hi, conn, x, y), wi, hi, bx, by, bw, bh)
                    && keeps(filter, bw, bh);
                assert forall|qx: int, qy: int| in_grid(qx, qy, wi, hi) implies (#[trigger] comp_of(b, wi, hi, conn, x, y)(qx, qy) <==> comp_of(
                    b,
                    wi,
                    hi,
                    conn,
                    x,
                    y,
                )(qx, qy)) by {}
                lemma_box_unique(comp_of(b, wi, hi, conn, x, y), comp_of(b, wi, hi, conn, x, y), wi, hi, bx, by, bw, bh, c.x as int, c.y as int,
                    c.w as int, c.h as int);
                assert(comp_of(b, wi, hi, conn, sx, sy)(x, y));
                assert(c.x <= x < c.x + c.w && c.y <= y < c.y + c.h);
                assert(mask_ink(c, x - c.x, y - c.y));
                assert(painted(c, filter, x, y));
            }
        }
    }
    Some(out)
}

} // verus!
