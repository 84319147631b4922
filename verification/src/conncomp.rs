//! Connected components of a binary image with their bounding boxes:
//! components are found in raster order of their first pixel and erased one
//! at a time by Heckbert's stack-based scanline seed fill, which also tracks
//! each component's bounding box and ink pixel count.
use vstd::prelude::*;
use crate::grid::{idx, lemma_idx_bounds, lemma_idx_decompose, lemma_idx_split};
use crate::seedfill::{adjacent, count_nonzero, in_grid, lemma_count_nonzero_clear};

verus! {

/// One connected component's bounding box `(x, y, w, h)`.
#[derive(Debug, Clone, Copy, PartialEq, Eq, Structural)]
pub struct ConnCompBox {
    /// Left edge.
    pub x: i32,
    /// Top edge.
    pub y: i32,
    /// Width.
    pub w: i32,
    /// Height.
    pub h: i32,
}

/// A connected component's bounding box plus its ink pixel count.
#[derive(Debug, Clone, Copy, PartialEq, Eq, Structural)]
pub struct ConnComp {
    /// The component's bounding box.
    pub bb: ConnCompBox,
    /// Number of ink pixels in the component.
    pub pixel_count: i32,
}

/// A pending scanline segment: columns `xleft..=xright` of row `y`, to be
/// continued into row `y + dy`.
#[derive(Clone, Copy)]
struct FillSeg {
    xleft: i32,
    xright: i32,
    y: i32,
    dy: i32,
}

/// Pixel `(x, y)` of a `w`-wide binary image is ink.
pub open spec fn ink_at(b: Seq<u8>, w: int, x: int, y: int) -> bool {
    b[idx(x, y, w)] == 0
}

/// A pixel set closed under stepping to an adjacent ink pixel of the grid.
pub open spec fn ink_closed(s: Set<(int, int)>, b: Seq<u8>, w: int, h: int, conn: int) -> bool {
    forall|x: int, y: int, qx: int, qy: int|
        #[trigger] s.contains((x, y)) && in_grid(qx, qy, w, h) && #[trigger] adjacent(conn, x, y, qx, qy) && ink_at(b, w, qx, qy)
            ==> s.contains((qx, qy))
}

/// `(x, y)` is reached from `(sx, sy)` by steps between adjacent ink
/// pixels: it lies in every ink-closed set that holds `(sx, sy)`.
pub open spec fn connected(b: Seq<u8>, w: int, h: int, conn: int, sx: int, sy: int, x: int, y: int) -> bool {
    forall|s: Set<(int, int)>| ink_closed(s, b, w, h, conn) && s.contains((sx, sy)) ==> #[trigger] s.contains((x, y))
}

/// One step from a connected pixel to an adjacent ink pixel stays connected.
pub proof fn lemma_connected_step(b: Seq<u8>, w: int, h: int, conn: int, sx: int, sy: int, px: int, py: int, qx: int, qy: int)
    requires
        connected(b, w, h, conn, sx, sy, px, py),
        in_grid(qx, qy, w, h),
        adjacent(conn, px, py, qx, qy),
        ink_at(b, w, qx, qy),
    ensures
        connected(b, w, h, conn, sx, sy, qx, qy),
{
    assert forall|s: Set<(int, int)>| ink_closed(s, b, w, h, conn) && s.contains((sx, sy)) implies #[trigger] s.contains((qx, qy)) by {
        assert(s.contains((px, py)));
    }
}

/// Connectivity is transitive.
pub proof fn lemma_connected_trans(b: Seq<u8>, w: int, h: int, conn: int, ax: int, ay: int, bx: int, by: int, cx: int, cy: int)
    requires
        connected(b, w, h, conn, ax, ay, bx, by),
        connected(b, w, h, conn, bx, by, cx, cy),
    ensures
        connected(b, w, h, conn, ax, ay, cx, cy),
{
    assert forall|s: Set<(int, int)>| ink_closed(s, b, w, h, conn) && s.contains((ax, ay)) implies #[trigger] s.contains((cx, cy)) by {
        assert(s.contains((bx, by)));
    }
}

/// Connectivity from an ink pixel of the grid is symmetric.
pub proof fn lemma_connected_sym(b: Seq<u8>, w: int, h: int, conn: int, ax: int, ay: int, bx: int, by: int)
    requires
        in_grid(ax, ay, w, h),
        ink_at(b, w, ax, ay),
        connected(b, w, h, conn, ax, ay, bx, by),
    ensures
        connected(b, w, h, conn, bx, by, ax, ay),
{
    assert forall|s: Set<(int, int)>| ink_closed(s, b, w, h, conn) && s.contains((bx, by)) implies #[trigger] s.contains((ax, ay)) by {
        if !s.contains((ax, ay)) {
            let t = Set::new(|p: (int, int)| in_grid(p.0, p.1, w, h) && ink_at(b, w, p.0, p.1) && !s.contains(p));
            assert forall|x: int, y: int, qx: int, qy: int|
                #[trigger] t.contains((x, y)) && in_grid(qx, qy, w, h) && #[trigger] adjacent(conn, x, y, qx, qy) && ink_at(b, w, qx, qy)
                    implies t.contains((qx, qy)) by {
                if s.contains((qx, qy)) {
                    assert(adjacent(conn, qx, qy, x, y));
                    assert(s.contains((x, y)));
                }
            }
            assert(ink_closed(t, b, w, h, conn));
            assert(t.contains((ax, ay)));
            assert(t.contains((bx, by)));
        }
    }
}

/// A pixel connected to an ink pixel is that pixel or an ink pixel of the
/// grid.
pub proof fn lemma_connected_ink(b: Seq<u8>, w: int, h: int, conn: int, ax: int, ay: int, bx: int, by: int)
    requires
        in_grid(ax, ay, w, h),
        connected(b, w, h, conn, ax, ay, bx, by),
    ensures
        (bx == ax && by == ay) || (in_grid(bx, by, w, h) && ink_at(b, w, bx, by)),
{
    let t = Set::new(|p: (int, int)| p == (ax, ay) || (in_grid(p.0, p.1, w, h) && ink_at(b, w, p.0, p.1)));
    assert(ink_closed(t, b, w, h, conn));
    assert(t.contains((ax, ay)));
    assert(t.contains((bx, by)));
}

/// The bounding box of the in-grid pixels satisfying `m`: every such pixel
/// lies inside it and each of its four edges holds one.
pub open spec fn is_bounding_box(bb: ConnCompBox, w: int, h: int, m: spec_fn(int, int) -> bool) -> bool {
    &&& 0 <= bb.x && 1 <= bb.w && bb.x + bb.w <= w
    &&& 0 <= bb.y && 1 <= bb.h && bb.y + bb.h <= h
    &&& forall|x: int, y: int| in_grid(x, y, w, h) && #[trigger] m(x, y) ==> bb.x <= x < bb.x + bb.w && bb.y <= y < bb.y + bb.h
    &&& exists|y: int| 0 <= y < h && #[trigger] m(bb.x as int, y)
    &&& exists|y: int| 0 <= y < h && #[trigger] m(bb.x + bb.w - 1, y)
    &&& exists|x: int| 0 <= x < w && #[trigger] m(x, bb.y as int)
    &&& exists|x: int| 0 <= x < w && #[trigger] m(x, bb.y + bb.h - 1)
}

/// Is the working-copy pixel `(x, y)` still ON?
fn get_bit(on: &[u8], w: i32, x: i32, y: i32) -> (b: bool)
    requires
        0 <= x < w,
        0 <= y,
        y * w + x < on@.len(),
        on@.len() <= i32::MAX,
    ensures
        b == (on@[idx(x as int, y as int, w as int)] != 0),
{
    proof {
        assert(0 <= y * w) by (nonlinear_arith)
            requires
                0 <= y,
                0 <= w,
        ;
    }
    on[(y * w + x) as usize] != 0
}

/// Erase the working-copy pixel `(x, y)`.
fn clear_bit(on: &mut Vec<u8>, w: i32, x: i32, y: i32)
    requires
        0 <= x < w,
        0 <= y,
        y * w + x < old(on)@.len(),
        old(on)@.len() <= i32::MAX,
    ensures
        final(on)@ == old(on)@.update(idx(x as int, y as int, w as int), 0),
{
    proof {
        assert(0 <= y * w) by (nonlinear_arith)
            requires
                0 <= y,
                0 <= w,
        ;
    }
    on.set((y * w + x) as usize, 0);
}

/// Widen the running bounding box by the segment and keep
/// it for continuation when row `y + dy` lies inside `0..=ymax`.
fn push_fillseg_bb(
    stack: &mut Vec<FillSeg>,
    xleft: i32,
    xright: i32,
    y: i32,
    dy: i32,
    ymax: i32,
    minx: &mut i32,
    maxx: &mut i32,
    miny: &mut i32,
    maxy: &mut i32,
)
    requires
        dy == 1 || dy == -1,
        i32::MIN < y < i32::MAX,
    ensures
        *final(minx) == if xleft < *old(minx) { xleft } else { *old(minx) },
        *final(maxx) == if xright > *old(maxx) { xright } else { *old(maxx) },
        *final(miny) == if y < *old(miny) { y } else { *old(miny) },
        *final(maxy) == if y > *old(maxy) { y } else { *old(maxy) },
        final(stack)@ == if 0 <= y + dy <= ymax {
            old(stack)@.push(FillSeg { xleft, xright, y, dy })
        } else {
            old(stack)@
        },
{
    if xleft < *minx {
        *minx = xleft;
    }
    if xright > *maxx {
        *maxx = xright;
    }
    if y < *miny {
        *miny = y;
    }
    if y > *maxy {
        *maxy = y;
    }
    if y + dy >= 0 && y + dy <= ymax {
        stack.push(FillSeg { xleft, xright, y, dy });
    }
}

/// Take the top segment, returning `(xleft, xright, y + dy,
/// dy)`: the row it now continues into.
fn pop_fillseg(stack: &mut Vec<FillSeg>) -> (r: Option<(i32, i32, i32, i32)>)
    requires
        old(stack)@.len() > 0 ==> {
            let s = old(stack)@.last();
            i32::MIN <= s.y + s.dy <= i32::MAX
        },
    ensures
        old(stack)@.len() == 0 ==> r is None && final(stack)@ == old(stack)@,
        old(stack)@.len() > 0 ==> {
            let s = old(stack)@.last();
            &&& final(stack)@ == old(stack)@.drop_last()
            &&& r == Some((s.xleft, s.xright, (s.y + s.dy) as i32, s.dy))
        },
{
    match stack.pop() {
        Some(fseg) => Some((fseg.xleft, fseg.xright, fseg.y + fseg.dy, fseg.dy)),
        None => None,
    }
}

/// Raster position of pixel `(x, y)`.
pub open spec fn raster(x: int, y: int, w: int) -> int {
    y * w + x
}

/// The first ON pixel at or after `(xstart,
/// ystart)` in raster order, or `None` when every pixel from there on is
/// OFF.
fn next_on_pixel_in_raster(on: &[u8], w: i32, h: i32, xstart: i32, ystart: i32) -> (r: Option<(i32, i32)>)
    requires
        1 <= w,
        1 <= h,
        on@.len() == w * h,
        w * h <= i32::MAX,
        in_grid(xstart as int, ystart as int, w as int, h as int),
    ensures
        r matches Some((x, y)) ==> {
            &&& in_grid(x as int, y as int, w as int, h as int)
            &&& on@[idx(x as int, y as int, w as int)] != 0
            &&& idx(xstart as int, ystart as int, w as int) <= idx(x as int, y as int, w as int)
            &&& forall|i: int| idx(xstart as int, ystart as int, w as int) <= i < idx(x as int, y as int, w as int) ==> on@[i] == 0
        },
        r is None ==> forall|i: int| idx(xstart as int, ystart as int, w as int) <= i < on@.len() ==> on@[i] == 0,
{
    let ghost start = idx(xstart as int, ystart as int, w as int);
    proof {
        lemma_idx_bounds(xstart as int, ystart as int, w as int, h as int);
    }
    let mut x: i32 = xstart;
    while x < w
        invariant
            1 <= w,
            on@.len() == w * h,
            w * h <= i32::MAX,
            in_grid(xstart as int, ystart as int, w as int, h as int),
            start == idx(xstart as int, ystart as int, w as int),
            xstart <= x <= w,
            forall|i: int| start <= i < idx(x as int, ystart as int, w as int) ==> on@[i] == 0,
        decreases w - x,
    {
        proof {
            lemma_idx_bounds(x as int, ystart as int, w as int, h as int);
        }
        if get_bit(on, w, x, ystart) {
            return Some((x, ystart));
        }
        x += 1;
    }
    proof {
        assert(idx(0, ystart + 1, w as int) == idx(w as int, ystart as int, w as int)) by (nonlinear_arith);
    }
    let mut y: i32 = ystart + 1;
    while y < h
        invariant
            1 <= w,
            on@.len() == w * h,
            w * h <= i32::MAX,
            in_grid(xstart as int, ystart as int, w as int, h as int),
            start == idx(xstart as int, ystart as int, w as int),
            ystart < y <= h,
            forall|i: int| start <= i < idx(0, y as int, w as int) ==> on@[i] == 0,
        decreases h - y,
    {
        let mut x: i32 = 0;
        while x < w
            invariant
                1 <= w,
                on@.len() == w * h,
                w * h <= i32::MAX,
                in_grid(xstart as int, ystart as int, w as int, h as int),
                start == idx(xstart as int, ystart as int, w as int),
                ystart < y < h,
                0 <= x <= w,
                forall|i: int| start <= i < idx(x as int, y as int, w as int) ==> on@[i] == 0,
            decreases w - x,
        {
            proof {
                lemma_idx_bounds(x as int, y as int, w as int, h as int);
            }
            if get_bit(on, w, x, y) {
                proof {
                    assert(start <= idx(x as int, y as int, w as int)) by (nonlinear_arith)
                        requires
                            start == ystart * w + xstart,
                            xstart < w,
                            ystart < y,
                            0 <= x,
                            1 <= w,
                            0 <= ystart,
                    ;
                }
                return Some((x, y));
            }
            x += 1;
        }
        proof {
            assert(idx(0, y + 1, w as int) == idx(w as int, y as int, w as int)) by (nonlinear_arith);
        }
        y += 1;
    }
    proof {
        assert(idx(0, h as int, w as int) == on@.len()) by (nonlinear_arith)
            requires
                on@.len() == w * h,
        ;
    }
    None
}


/// Connectivity selected by the scanline offset `d`: 4 for `d = 0`, 8 for
/// `d = 1`.
pub open spec fn conn_of(d: int) -> int {
    if d == 0 { 4 } else { 8 }
}

/// Pixel `(x, y)` was ON in `on0` and is OFF in `on`.
pub open spec fn cleared(on0: Seq<u8>, on: Seq<u8>, w: int, x: int, y: int) -> bool {
    on0[idx(x, y, w)] != 0 && on[idx(x, y, w)] == 0
}

/// Every pixel of `on` keeps its byte from `on0` or was set to zero.
pub open spec fn only_cleared(on0: Seq<u8>, on: Seq<u8>) -> bool {
    &&& on.len() == on0.len()
    &&& forall|i: int| 0 <= i < on.len() ==> #[trigger] on[i] == on0[i] || on[i] == 0
}

/// The pixels cleared from `on0` to `on`, as a predicate on coordinates.
pub open spec fn cleared_set(on0: Seq<u8>, on: Seq<u8>, w: int) -> spec_fn(int, int) -> bool {
    |x: int, y: int| cleared(on0, on, w, x, y)
}

/// Facts fixed for one seed fill: grid limits, the working copy marking
/// only ink, and the seed being ON.
pub open spec fn fill_ctx(b: Seq<u8>, on0: Seq<u8>, w: int, h: int, d: int, sx: int, sy: int) -> bool {
    &&& 1 <= w && 1 <= h && w * h <= i32::MAX && w + 2 <= i32::MAX && h + 2 <= i32::MAX
    &&& b.len() == w * h && on0.len() == w * h
    &&& d == 0 || d == 1
    &&& in_grid(sx, sy, w, h)
    &&& on0[idx(sx, sy, w)] != 0
    &&& forall|i: int| 0 <= i < on0.len() && #[trigger] on0[i] != 0 ==> b[i] == 0
    &&& count_nonzero(on0) <= w * h
}

/// The working copy only lost pixels since `on0`, and every pixel erased so
/// far is connected to the seed.
pub open spec fn fill_ok(b: Seq<u8>, on0: Seq<u8>, on: Seq<u8>, w: int, h: int, d: int, sx: int, sy: int) -> bool {
    &&& only_cleared(on0, on)
    &&& forall|x: int, y: int| in_grid(x, y, w, h) && #[trigger] cleared(on0, on, w, x, y) ==> connected(b, w, h, conn_of(d), sx, sy, x, y)
}

/// A segment that scans row `y` over columns `x1 - d ..= x2 + d`, where
/// every ink pixel is connected to the seed.
pub open spec fn scan_ok(b: Seq<u8>, w: int, h: int, d: int, sx: int, sy: int, x1: int, x2: int, y: int) -> bool {
    &&& 0 <= y < h
    &&& 0 <= x1 <= x2 + 1 && x2 < w && x1 - d < w
    &&& (d == 0 ==> x1 <= x2)
    &&& forall|qx: int| x1 - d <= qx <= x2 + d && 0 <= qx < w && #[trigger] ink_at(b, w, qx, y) ==> connected(b, w, h, conn_of(d), sx, sy, qx, y)
}

/// A stacked segment, continuing into row `y + dy`.
spec fn seg_ok(s: FillSeg, b: Seq<u8>, w: int, h: int, d: int, sx: int, sy: int) -> bool {
    &&& s.dy == 1 || s.dy == -1
    &&& -1 <= s.y <= h
    &&& scan_ok(b, w, h, d, sx, sy, s.xleft as int, s.xright as int, s.y + s.dy)
}

spec fn stack_ok(st: Seq<FillSeg>, b: Seq<u8>, w: int, h: int, d: int, sx: int, sy: int) -> bool {
    forall|i: int| 0 <= i < st.len() ==> seg_ok(#[trigger] st[i], b, w, h, d, sx, sy)
}

/// A bounding-box witness: a pixel erased so far, or the seed itself.
pub open spec fn wit_ok(on0: Seq<u8>, on: Seq<u8>, w: int, h: int, p: (int, int), sx: int, sy: int) -> bool {
    in_grid(p.0, p.1, w, h) && (cleared(on0, on, w, p.0, p.1) || (p.0 == sx && p.1 == sy))
}

/// The running box holds every erased pixel except those of the pending
/// run `plo..=phi` of row `py`, and each of its edges has a witness.
pub open spec fn bb_ok(
    on0: Seq<u8>,
    on: Seq<u8>,
    w: int,
    h: int,
    bx: (int, int, int, int),
    wl: (int, int),
    wr: (int, int),
    wt: (int, int),
    wb: (int, int),
    sx: int,
    sy: int,
    py: int,
    plo: int,
    phi: int,
) -> bool {
    &&& forall|x: int, y: int|
        in_grid(x, y, w, h) && #[trigger] cleared(on0, on, w, x, y) ==> (bx.0 <= x <= bx.1 && bx.2 <= y <= bx.3) || (y == py && plo
            <= x <= phi)
    &&& wl.0 == bx.0 && wit_ok(on0, on, w, h, wl, sx, sy)
    &&& wr.0 == bx.1 && wit_ok(on0, on, w, h, wr, sx, sy)
    &&& wt.1 == bx.2 && wit_ok(on0, on, w, h, wt, sx, sy)
    &&& wb.1 == bx.3 && wit_ok(on0, on, w, h, wb, sx, sy)
}

/// Pixels `lo..=hi` of row `y` were ON in `a` and are OFF in `c`.
pub open spec fn run_fresh(a: Seq<u8>, c: Seq<u8>, w: int, y: int, lo: int, hi: int) -> bool {
    forall|x: int| lo <= x <= hi ==> #[trigger] cleared(a, c, w, x, y)
}

/// Pixels `lo..hi` of row `y` are OFF in `on` (columns clipped to the row).
pub open spec fn row_off(on: Seq<u8>, w: int, y: int, lo: int, hi: int) -> bool {
    forall|x: int| lo <= x < hi && 0 <= x < w ==> #[trigger] on[idx(x, y, w)] == 0
}

/// Non-zero count of a sequence never exceeds its length.
pub proof fn lemma_count_nonzero_le_len(s: Seq<u8>)
    ensures
        count_nonzero(s) <= s.len(),
    decreases s.len(),
{
    if s.len() > 0 {
        lemma_count_nonzero_le_len(s.drop_last());
    }
}

/// Losing pixels never raises the non-zero count; losing one lowers it.
pub proof fn lemma_count_nonzero_sub(a: Seq<u8>, c: Seq<u8>)
    requires
        only_cleared(a, c),
    ensures
        count_nonzero(c) <= count_nonzero(a),
        (exists|i: int| 0 <= i < a.len() && a[i] != 0 && c[i] == 0) ==> count_nonzero(c) < count_nonzero(a),
    decreases a.len(),
{
    if a.len() > 0 {
        let a2 = a.drop_last();
        let c2 = c.drop_last();
        assert forall|i: int| 0 <= i < c2.len() && #[trigger] c2[i] != 0 implies a2[i] != 0 by {
            assert(c[i] != 0);
        }
        lemma_count_nonzero_sub(a2, c2);
        if exists|i: int| 0 <= i < a.len() && a[i] != 0 && c[i] == 0 {
            let i = choose|i: int| 0 <= i < a.len() && a[i] != 0 && c[i] == 0;
            if i < a.len() - 1 {
                assert(a2[i] != 0 && c2[i] == 0);
            }
        }
    }
}

/// Ink pixels of row `ny` within `d` columns of a connected run `lo..=hi`
/// of the adjacent row `y` are connected too.
proof fn lemma_row_anchor(b: Seq<u8>, w: int, h: int, d: int, sx: int, sy: int, lo: int, hi: int, y: int, ny: int)
    requires
        d == 0 || d == 1,
        0 <= lo <= hi < w,
        0 <= y < h,
        0 <= ny < h,
        ny == y + 1 || ny == y - 1,
        forall|x: int| lo <= x <= hi ==> connected(b, w, h, conn_of(d), sx, sy, x, y),
    ensures
        forall|qx: int| lo - d <= qx <= hi + d && 0 <= qx < w && #[trigger] ink_at(b, w, qx, ny) ==> connected(b, w, h, conn_of(d), sx, sy, qx, ny),
{
    assert forall|qx: int| lo - d <= qx <= hi + d && 0 <= qx < w && #[trigger] ink_at(b, w, qx, ny) implies connected(b, w, h, conn_of(d), sx, sy, qx, ny) by {
        let px = if qx < lo { lo } else if qx > hi { hi } else { qx };
        assert(connected(b, w, h, conn_of(d), sx, sy, px, y));
        lemma_connected_step(b, w, h, conn_of(d), sx, sy, px, y, qx, ny);
    }
}

/// Ink pixels of the seed's row within `d` columns of the seed are
/// connected to it.
proof fn lemma_seed_row(b: Seq<u8>, w: int, h: int, d: int, sx: int, sy: int)
    requires
        d == 0 || d == 1,
        in_grid(sx, sy, w, h),
    ensures
        connected(b, w, h, conn_of(d), sx, sy, sx, sy),
        forall|qx: int| sx - d <= qx <= sx + d && 0 <= qx < w && #[trigger] ink_at(b, w, qx, sy) ==> connected(b, w, h, conn_of(d), sx, sy, qx, sy),
{
    assert(connected(b, w, h, conn_of(d), sx, sy, sx, sy));
    assert forall|qx: int| sx - d <= qx <= sx + d && 0 <= qx < w && #[trigger] ink_at(b, w, qx, sy) implies connected(b, w, h, conn_of(d), sx, sy, qx, sy) by {
        if qx != sx {
            lemma_connected_step(b, w, h, conn_of(d), sx, sy, sx, sy, qx, sy);
        }
    }
}

/// Clearing an ON pixel of the working copy.
proof fn lemma_clear_step(
    b: Seq<u8>,
    on0: Seq<u8>,
    on_pop: Seq<u8>,
    on: Seq<u8>,
    w: int,
    h: int,
    d: int,
    sx: int,
    sy: int,
    x: int,
    y: int,
)
    requires
        fill_ctx(b, on0, w, h, d, sx, sy),
        fill_ok(b, on0, on, w, h, d, sx, sy),
        only_cleared(on0, on_pop),
        only_cleared(on_pop, on),
        in_grid(x, y, w, h),
        on[idx(x, y, w)] != 0,
        connected(b, w, h, conn_of(d), sx, sy, x, y),
    ensures
        ({
            let on2 = on.update(idx(x, y, w), 0);
            &&& fill_ok(b, on0, on2, w, h, d, sx, sy)
            &&& only_cleared(on_pop, on2)
            &&& count_nonzero(on2) + 1 == count_nonzero(on)
            &&& cleared(on0, on2, w, x, y)
            &&& cleared(on_pop, on2, w, x, y)
            &&& forall|qx: int, qy: int| in_grid(qx, qy, w, h) && #[trigger] cleared(on0, on, w, qx, qy) ==> cleared(on0, on2, w, qx, qy)
            &&& forall|qx: int, qy: int| in_grid(qx, qy, w, h) && #[trigger] cleared(on_pop, on, w, qx, qy) ==> cleared(on_pop, on2, w, qx, qy)
            &&& forall|qx: int, qy: int| in_grid(qx, qy, w, h) && !(qx == x && qy == y) ==> on2[idx(qx, qy, w)] == #[trigger] on[idx(qx, qy, w)]
        }),
{
    let i = idx(x, y, w);
    let on2 = on.update(i, 0);
    lemma_idx_bounds(x, y, w, h);
    lemma_count_nonzero_clear(on, i);
    assert forall|qx: int, qy: int| in_grid(qx, qy, w, h) && !(qx == x && qy == y) implies on2[idx(qx, qy, w)] == #[trigger] on[idx(qx, qy, w)] by {
        lemma_idx_bounds(qx, qy, w, h);
        crate::seedfill::lemma_pixel_distinct(qx, qy, x, y, w, h);
    }
    assert forall|qx: int, qy: int| in_grid(qx, qy, w, h) && #[trigger] cleared(on0, on2, w, qx, qy) implies connected(b, w, h, conn_of(d), sx, sy, qx, qy) by {
        lemma_idx_bounds(qx, qy, w, h);
        if !(qx == x && qy == y) {
            crate::seedfill::lemma_pixel_distinct(qx, qy, x, y, w, h);
            assert(cleared(on0, on, w, qx, qy));
        }
    }
    assert forall|qx: int, qy: int| in_grid(qx, qy, w, h) && #[trigger] cleared(on0, on, w, qx, qy) implies cleared(on0, on2, w, qx, qy) by {
        lemma_idx_bounds(qx, qy, w, h);
    }
    assert forall|qx: int, qy: int| in_grid(qx, qy, w, h) && #[trigger] cleared(on_pop, on, w, qx, qy) implies cleared(on_pop, on2, w, qx, qy) by {
        lemma_idx_bounds(qx, qy, w, h);
    }
    assert(on_pop[i] != 0);
}


/// Segment `s` will scan pixel `(qx, qy)` when popped.
spec fn seg_covers(s: FillSeg, d: int, qx: int, qy: int) -> bool {
    qy == s.y + s.dy && s.xleft - d <= qx <= s.xright + d
}

/// Some stacked segment will scan pixel `(qx, qy)`.
spec fn cov(st: Seq<FillSeg>, d: int, qx: int, qy: int) -> bool {
    exists|i: int| 0 <= i < st.len() && #[trigger] seg_covers(st[i], d, qx, qy)
}

/// Obligations carried by the segment being processed, which scans row `y`
/// over `x1 - d ..= x2 + d`: its scan span, the frontier pixels `f1`, `f2`
/// of the run being erased, and the rows above and below the pending run
/// `plo..=phi`.
spec fn pend(d: int, x1: int, x2: int, y: int, dy: int, f1: int, f2: int, plo: int, phi: int, qx: int, qy: int) -> bool {
    ||| (qy == y && x1 - d <= qx <= x2 + d)
    ||| (qy == y && (qx == f1 || qx == f2))
    ||| (plo <= phi && (qy == y + dy || qy == y - dy) && plo - d <= qx <= phi + d)
}

/// Every ON neighbour of an erased pixel is still to be scanned: by a
/// stacked segment or, while a segment is processed (`act`), by the
/// processing itself.
spec fn closure_inv(
    on0: Seq<u8>,
    on: Seq<u8>,
    st: Seq<FillSeg>,
    w: int,
    h: int,
    d: int,
    act: bool,
    x1: int,
    x2: int,
    y: int,
    dy: int,
    f1: int,
    f2: int,
    plo: int,
    phi: int,
) -> bool {
    forall|px: int, py: int, qx: int, qy: int|
        in_grid(px, py, w, h) && #[trigger] cleared(on0, on, w, px, py) && in_grid(qx, qy, w, h) && #[trigger] adjacent(conn_of(d), px, py, qx, qy)
            ==> on[idx(qx, qy, w)] == 0 || cov(st, d, qx, qy) || (act && pend(d, x1, x2, y, dy, f1, f2, plo, phi, qx, qy))
}

/// The pixels of row `s.y` next to the segment's span (columns
/// `xleft - 1 ..= xright`) are OFF, still to be scanned, or (4-connected)
/// the left one, whose scan-row pixel is OFF.
spec fn parent_ok(s: FillSeg, on: Seq<u8>, st: Seq<FillSeg>, w: int, h: int, d: int, act: bool, x1: int, x2: int, y: int) -> bool {
    forall|c: int|
        s.xleft - 1 <= c <= s.xright && 0 <= c < w && 0 <= s.y < h ==> #[trigger] on[idx(c, s.y as int, w)] == 0 || cov(st, d, c, s.y as int) || (
        act && s.y == y && x1 - d <= c <= x2 + d) || (c == s.xleft - 1 && d == 0 && 0 <= s.y + s.dy < h && on[idx(c, s.y + s.dy, w)] == 0)
}

spec fn parents_ok(st: Seq<FillSeg>, on: Seq<u8>, w: int, h: int, d: int, act: bool, x1: int, x2: int, y: int) -> bool {
    forall|i: int| 0 <= i < st.len() ==> parent_ok(#[trigger] st[i], on, st, w, h, d, act, x1, x2, y)
}

/// The popped segment's own parent-row pixels (row `y - dy`, columns
/// `x1 - 1 ..= x2`).
spec fn popped_parent_ok(on_pop: Seq<u8>, on: Seq<u8>, st: Seq<FillSeg>, w: int, h: int, d: int, x1: int, x2: int, y: int, dy: int) -> bool {
    forall|c: int|
        x1 - 1 <= c <= x2 && 0 <= c < w && 0 <= y - dy < h ==> #[trigger] on[idx(c, y - dy, w)] == 0 || cov(st, d, c, y - dy) || (c
            == x1 - 1 && d == 0 && on_pop[idx(c, y, w)] == 0)
}

proof fn lemma_cov_push(st: Seq<FillSeg>, s: FillSeg, d: int, qx: int, qy: int)
    ensures
        cov(st, d, qx, qy) ==> cov(st.push(s), d, qx, qy),
        seg_covers(s, d, qx, qy) ==> cov(st.push(s), d, qx, qy),
{
    let st2 = st.push(s);
    if cov(st, d, qx, qy) {
        let i = choose|i: int| 0 <= i < st.len() && #[trigger] seg_covers(st[i], d, qx, qy);
        assert(st2[i] == st[i]);
        assert(seg_covers(st2[i], d, qx, qy));
    }
    if seg_covers(s, d, qx, qy) {
        assert(st2[st.len() as int] == s);
        assert(seg_covers(st2[st.len() as int], d, qx, qy));
    }
}

proof fn lemma_cov_pop(st: Seq<FillSeg>, d: int, qx: int, qy: int)
    requires
        st.len() > 0,
    ensures
        cov(st, d, qx, qy) ==> cov(st.drop_last(), d, qx, qy) || seg_covers(st.last(), d, qx, qy),
{
    if cov(st, d, qx, qy) {
        let i = choose|i: int| 0 <= i < st.len() && #[trigger] seg_covers(st[i], d, qx, qy);
        if i < st.len() - 1 {
            assert(st.drop_last()[i] == st[i]);
            assert(seg_covers(st.drop_last()[i], d, qx, qy));
        }
    }
}

/// Pushing a segment keeps all coverage facts.
proof fn lemma_cov_push_all(st: Seq<FillSeg>, s: FillSeg, d: int)
    ensures
        forall|qx: int, qy: int| cov(st, d, qx, qy) ==> #[trigger] cov(st.push(s), d, qx, qy),
        forall|qx: int, qy: int| seg_covers(s, d, qx, qy) ==> #[trigger] cov(st.push(s), d, qx, qy),
{
    assert forall|qx: int, qy: int| cov(st, d, qx, qy) implies #[trigger] cov(st.push(s), d, qx, qy) by {
        lemma_cov_push(st, s, d, qx, qy);
    }
    assert forall|qx: int, qy: int| seg_covers(s, d, qx, qy) implies #[trigger] cov(st.push(s), d, qx, qy) by {
        lemma_cov_push(st, s, d, qx, qy);
    }
}

/// Trading obligations: when every ON pixel owed under the old
/// processing parameters is covered or owed under the new ones, the
/// closure carries over.
proof fn lemma_closure_mono(
    on0: Seq<u8>,
    on: Seq<u8>,
    st: Seq<FillSeg>,
    w: int,
    h: int,
    d: int,
    act: bool,
    x1: int,
    x2: int,
    y: int,
    dy: int,
    f1: int,
    f2: int,
    plo: int,
    phi: int,
    act2: bool,
    nf1: int,
    nf2: int,
    nplo: int,
    nphi: int,
)
    requires
        closure_inv(on0, on, st, w, h, d, act, x1, x2, y, dy, f1, f2, plo, phi),
        forall|qx: int, qy: int|
            in_grid(qx, qy, w, h) && on[idx(qx, qy, w)] != 0 && act && #[trigger] pend(d, x1, x2, y, dy, f1, f2, plo, phi, qx, qy) ==> cov(
                st,
                d,
                qx,
                qy,
            ) || (act2 && pend(d, x1, x2, y, dy, nf1, nf2, nplo, nphi, qx, qy)),
    ensures
        closure_inv(on0, on, st, w, h, d, act2, x1, x2, y, dy, nf1, nf2, nplo, nphi),
{
    assert forall|px: int, py: int, qx: int, qy: int|
        in_grid(px, py, w, h) && #[trigger] cleared(on0, on, w, px, py) && in_grid(qx, qy, w, h) && #[trigger] adjacent(conn_of(d), px, py, qx, qy)
            implies on[idx(qx, qy, w)] == 0 || cov(st, d, qx, qy) || (act2 && pend(d, x1, x2, y, dy, nf1, nf2, nplo, nphi, qx, qy)) by {
        if on[idx(qx, qy, w)] != 0 && !cov(st, d, qx, qy) {
            assert(act && pend(d, x1, x2, y, dy, f1, f2, plo, phi, qx, qy));
        }
    }
}

/// Erasing the ON pixel `(x, y)` of the scanned row keeps the closure, with
/// the pixel joining the pending run `nplo..=nphi` and its row neighbours
/// OFF, new frontiers, or inside the scanned span.
#[verifier::spinoff_prover]
#[verifier::rlimit(40)]
proof fn lemma_clear_closure(
    on0: Seq<u8>,
    on_pop: Seq<u8>,
    on: Seq<u8>,
    st: Seq<FillSeg>,
    w: int,
    h: int,
    d: int,
    x1: int,
    x2: int,
    y: int,
    dy: int,
    f1: int,
    f2: int,
    plo: int,
    phi: int,
    x: int,
    nf1: int,
    nf2: int,
    nplo: int,
    nphi: int,
)
    requires
        on.len() == w * h,
        d == 0 || d == 1,
        dy == 1 || dy == -1,
        closure_inv(on0, on, st, w, h, d, true, x1, x2, y, dy, f1, f2, plo, phi),
        parents_ok(st, on, w, h, d, true, x1, x2, y),
        popped_parent_ok(on_pop, on, st, w, h, d, x1, x2, y, dy),
        in_grid(x, y, w, h),
        on[idx(x, y, w)] != 0,
        nplo <= x <= nphi,
        plo <= phi ==> nplo <= plo && phi <= nphi,
        0 <= x - 1 ==> on[idx(x - 1, y, w)] == 0 || x - 1 == nf1 || x - 1 == nf2 || x1 - d <= x - 1 <= x2 + d,
        x + 1 < w ==> on[idx(x + 1, y, w)] == 0 || x + 1 == nf1 || x + 1 == nf2 || x1 - d <= x + 1 <= x2 + d,
        0 <= f1 < w ==> f1 == x || f1 == nf1 || f1 == nf2 || on[idx(f1, y, w)] == 0 || x1 - d <= f1 <= x2 + d,
        0 <= f2 < w ==> f2 == x || f2 == nf1 || f2 == nf2 || on[idx(f2, y, w)] == 0 || x1 - d <= f2 <= x2 + d,
    ensures
        ({
            let on2 = on.update(idx(x, y, w), 0);
            &&& closure_inv(on0, on2, st, w, h, d, true, x1, x2, y, dy, nf1, nf2, nplo, nphi)
            &&& parents_ok(st, on2, w, h, d, true, x1, x2, y)
            &&& popped_parent_ok(on_pop, on2, st, w, h, d, x1, x2, y, dy)
        }),
{
    let on2 = on.update(idx(x, y, w), 0);
    lemma_idx_bounds(x, y, w, h);
    assert forall|qx: int, qy: int| in_grid(qx, qy, w, h) && on[idx(qx, qy, w)] == 0 implies #[trigger] on2[idx(qx, qy, w)] == 0 by {
        lemma_idx_bounds(qx, qy, w, h);
    }
    assert forall|px: int, py: int, qx: int, qy: int|
        in_grid(px, py, w, h) && #[trigger] cleared(on0, on2, w, px, py) && in_grid(qx, qy, w, h) && #[trigger] adjacent(conn_of(d), px, py, qx, qy)
            implies on2[idx(qx, qy, w)] == 0 || cov(st, d, qx, qy) || pend(d, x1, x2, y, dy, nf1, nf2, nplo, nphi, qx, qy) by {
        lemma_idx_bounds(qx, qy, w, h);
        lemma_idx_bounds(px, py, w, h);
        if qx == x && qy == y {
        } else {
            crate::seedfill::lemma_pixel_distinct(qx, qy, x, y, w, h);
            assert(on2[idx(qx, qy, w)] == on[idx(qx, qy, w)]);
            if px == x && py == y {
                if qy == y {
                    assert(qx == x - 1 || qx == x + 1);
                } else {
                    assert(qy == y + dy || qy == y - dy);
                    assert(x - d <= qx <= x + d);
                    assert(pend(d, x1, x2, y, dy, nf1, nf2, nplo, nphi, qx, qy));
                }
            } else {
                crate::seedfill::lemma_pixel_distinct(px, py, x, y, w, h);
                assert(cleared(on0, on, w, px, py));
                if on[idx(qx, qy, w)] != 0 && !cov(st, d, qx, qy) {
                    assert(pend(d, x1, x2, y, dy, f1, f2, plo, phi, qx, qy));
                }
            }
        }
    }
    assert forall|i: int| 0 <= i < st.len() implies parent_ok(#[trigger] st[i], on2, st, w, h, d, true, x1, x2, y) by {
        let s = st[i];
        assert(parent_ok(s, on, st, w, h, d, true, x1, x2, y));
        assert forall|c: int| s.xleft - 1 <= c <= s.xright && 0 <= c < w && 0 <= s.y < h implies #[trigger] on2[idx(c, s.y as int, w)] == 0
            || cov(st, d, c, s.y as int) || (true && s.y == y && x1 - d <= c <= x2 + d) || (c == s.xleft - 1 && d == 0 && 0 <= s.y
            + s.dy < h && on2[idx(c, s.y + s.dy, w)] == 0) by {
            if c == s.xleft - 1 && d == 0 && 0 <= s.y + s.dy < h && on[idx(c, s.y + s.dy, w)] == 0 {
                assert(on2[idx(c, s.y + s.dy, w)] == 0);
            }
            if on[idx(c, s.y as int, w)] == 0 {
                assert(on2[idx(c, s.y as int, w)] == 0);
            }
        }
    }
    assert forall|c: int| x1 - 1 <= c <= x2 && 0 <= c < w && 0 <= y - dy < h implies #[trigger] on2[idx(c, y - dy, w)] == 0 || cov(
        st,
        d,
        c,
        y - dy,
    ) || (c == x1 - 1 && d == 0 && on_pop[idx(c, y, w)] == 0) by {
        assert(on[idx(c, y - dy, w)] == 0 || cov(st, d, c, y - dy) || (c == x1 - 1 && d == 0 && on_pop[idx(c, y, w)] == 0));
    }
}

/// Pushing a segment keeps every obligation met: coverage only grows.
proof fn lemma_push_clo(
    on0: Seq<u8>,
    on_pop: Seq<u8>,
    on: Seq<u8>,
    st: Seq<FillSeg>,
    s: FillSeg,
    w: int,
    h: int,
    d: int,
    act: bool,
    x1: int,
    x2: int,
    y: int,
    dy: int,
    f1: int,
    f2: int,
    plo: int,
    phi: int,
)
    requires
        closure_inv(on0, on, st, w, h, d, act, x1, x2, y, dy, f1, f2, plo, phi),
        parents_ok(st, on, w, h, d, act, x1, x2, y),
        popped_parent_ok(on_pop, on, st, w, h, d, x1, x2, y, dy),
        parent_ok(s, on, st.push(s), w, h, d, act, x1, x2, y),
    ensures
        closure_inv(on0, on, st.push(s), w, h, d, act, x1, x2, y, dy, f1, f2, plo, phi),
        parents_ok(st.push(s), on, w, h, d, act, x1, x2, y),
        popped_parent_ok(on_pop, on, st.push(s), w, h, d, x1, x2, y, dy),
        forall|qx: int, qy: int| cov(st, d, qx, qy) ==> #[trigger] cov(st.push(s), d, qx, qy),
        forall|qx: int, qy: int| seg_covers(s, d, qx, qy) ==> #[trigger] cov(st.push(s), d, qx, qy),
{
    lemma_cov_push_all(st, s, d);
    let st2 = st.push(s);
    assert forall|i: int| 0 <= i < st2.len() implies parent_ok(#[trigger] st2[i], on, st2, w, h, d, act, x1, x2, y) by {
        if i < st.len() {
            assert(st2[i] == st[i]);
            assert(parent_ok(st[i], on, st, w, h, d, act, x1, x2, y));
        }
    }
}

/// Popping the top segment hands its coverage over to the processing of
/// that segment, which scans row `s.y + s.dy` over `s.xleft - d ..=
/// s.xright + d`; its parent row is the segment's own row.
#[verifier::spinoff_prover]
#[verifier::rlimit(40)]
proof fn lemma_pop_clo(on0: Seq<u8>, on: Seq<u8>, st: Seq<FillSeg>, w: int, h: int, d: int)
    requires
        st.len() > 0,
        closure_inv(on0, on, st, w, h, d, false, 0, 0, 0, 0, -1, -1, 1, 0),
        parents_ok(st, on, w, h, d, false, 0, 0, 0),
        st.last().dy == 1 || st.last().dy == -1,
    ensures
        ({
            let s = st.last();
            let st2 = st.drop_last();
            &&& closure_inv(on0, on, st2, w, h, d, true, s.xleft as int, s.xright as int, s.y + s.dy, s.dy as int, -1, -1, 1, 0)
            &&& parents_ok(st2, on, w, h, d, true, s.xleft as int, s.xright as int, s.y + s.dy)
            &&& popped_parent_ok(on, on, st2, w, h, d, s.xleft as int, s.xright as int, s.y + s.dy, s.dy as int)
        }),
{
    let s = st.last();
    let st2 = st.drop_last();
    let x1 = s.xleft as int;
    let x2 = s.xright as int;
    let y = s.y + s.dy;
    let dy = s.dy as int;
    assert forall|px: int, py: int, qx: int, qy: int|
        in_grid(px, py, w, h) && #[trigger] cleared(on0, on, w, px, py) && in_grid(qx, qy, w, h) && #[trigger] adjacent(conn_of(d), px, py, qx, qy)
            implies on[idx(qx, qy, w)] == 0 || cov(st2, d, qx, qy) || (true && pend(d, x1, x2, y, dy, -1, -1, 1, 0, qx, qy)) by {
        lemma_cov_pop(st, d, qx, qy);
    }
    assert forall|i: int| 0 <= i < st2.len() implies parent_ok(#[trigger] st2[i], on, st2, w, h, d, true, x1, x2, y) by {
        let si = st[i];
        assert(st2[i] == si);
        assert(parent_ok(si, on, st, w, h, d, false, 0, 0, 0));
        assert forall|c: int| si.xleft - 1 <= c <= si.xright && 0 <= c < w && 0 <= si.y < h implies #[trigger] on[idx(c, si.y as int, w)] == 0
            || cov(st2, d, c, si.y as int) || (true && si.y == y && x1 - d <= c <= x2 + d) || (c == si.xleft - 1 && d == 0 && 0 <= si.y
            + si.dy < h && on[idx(c, si.y + si.dy, w)] == 0) by {
            lemma_cov_pop(st, d, c, si.y as int);
        }
    }
    assert(parent_ok(st[st.len() - 1], on, st, w, h, d, false, 0, 0, 0));
    assert forall|c: int| x1 - 1 <= c <= x2 && 0 <= c < w && 0 <= y - dy < h implies #[trigger] on[idx(c, y - dy, w)] == 0 || cov(
        st2,
        d,
        c,
        y - dy,
    ) || (c == x1 - 1 && d == 0 && on[idx(c, y, w)] == 0) by {
        lemma_cov_pop(st, d, c, y - dy);
    }
}

/// The top of the stack is the segment that continues the seed's column
/// into the seed's own row.
spec fn is_seed_seg(s: FillSeg, sx: int, sy: int) -> bool {
    s.xleft == sx && s.xright == sx && s.y == sy + 1 && s.dy == -1
}

/// State between two pops of the seed fill.
spec fn pop_inv(
    b: Seq<u8>,
    on0: Seq<u8>,
    on: Seq<u8>,
    st: Seq<FillSeg>,
    w: int,
    h: int,
    d: int,
    sx: int,
    sy: int,
    count: int,
    bx: (int, int, int, int),
    wl: (int, int),
    wr: (int, int),
    wt: (int, int),
    wb: (int, int),
) -> bool {
    &&& fill_ctx(b, on0, w, h, d, sx, sy)
    &&& fill_ok(b, on0, on, w, h, d, sx, sy)
    &&& stack_ok(st, b, w, h, d, sx, sy)
    &&& count == count_nonzero(on0) - count_nonzero(on)
    &&& bb_ok(on0, on, w, h, bx, wl, wr, wt, wb, sx, sy, -1, 1, 0)
    &&& bx.0 <= sx <= bx.1 && bx.2 <= sy <= bx.3
    &&& cleared(on0, on, w, sx, sy) || (st.len() > 0 && is_seed_seg(st.last(), sx, sy))
}

/// State while the popped segment `x1..=x2`, now scanning row `y`, is
/// processed: `on_pop` is the working copy and `lp` the stack length right
/// after the pop, and `plo..=phi` is the run of row `y` not yet added to the
/// box.
spec fn proc_inv(
    b: Seq<u8>,
    on0: Seq<u8>,
    on_pop: Seq<u8>,
    on: Seq<u8>,
    st: Seq<FillSeg>,
    lp: int,
    w: int,
    h: int,
    d: int,
    sx: int,
    sy: int,
    count: int,
    bx: (int, int, int, int),
    wl: (int, int),
    wr: (int, int),
    wt: (int, int),
    wb: (int, int),
    plo: int,
    phi: int,
    x1: int,
    x2: int,
    y: int,
    dy: int,
) -> bool {
    &&& fill_ctx(b, on0, w, h, d, sx, sy)
    &&& fill_ok(b, on0, on, w, h, d, sx, sy)
    &&& only_cleared(on0, on_pop)
    &&& only_cleared(on_pop, on)
    &&& stack_ok(st, b, w, h, d, sx, sy)
    &&& count == count_nonzero(on0) - count_nonzero(on)
    &&& bb_ok(on0, on, w, h, bx, wl, wr, wt, wb, sx, sy, y, plo, phi)
    &&& bx.0 <= sx <= bx.1 && bx.2 <= sy <= bx.3
    &&& dy == 1 || dy == -1
    &&& scan_ok(b, w, h, d, sx, sy, x1, x2, y)
    &&& cleared(on0, on, w, sx, sy) || (x1 == sx && x2 == sx && y == sy && dy == -1)
    &&& (st.len() == lp && count_nonzero(on) <= count_nonzero(on_pop)) || count_nonzero(on) < count_nonzero(on_pop)
}

/// Pixels of a run erased since the pop are erased since the fill began,
/// hence connected to the seed.
proof fn lemma_run_connected(
    b: Seq<u8>,
    on0: Seq<u8>,
    on_pop: Seq<u8>,
    on: Seq<u8>,
    w: int,
    h: int,
    d: int,
    sx: int,
    sy: int,
    y: int,
    lo: int,
    hi: int,
)
    requires
        fill_ok(b, on0, on, w, h, d, sx, sy),
        only_cleared(on0, on_pop),
        on0.len() == w * h,
        0 <= lo,
        hi < w,
        0 <= y < h,
        run_fresh(on_pop, on, w, y, lo, hi),
    ensures
        forall|x: int| lo <= x <= hi ==> #[trigger] cleared(on0, on, w, x, y),
        forall|x: int| lo <= x <= hi ==> #[trigger] connected(b, w, h, conn_of(d), sx, sy, x, y),
{
    assert forall|x: int| lo <= x <= hi implies #[trigger] cleared(on0, on, w, x, y) by {
        assert(cleared(on_pop, on, w, x, y));
        lemma_idx_bounds(x, y, w, h);
        let i = idx(x, y, w);
        assert(on_pop[i] != 0);
    }
    assert forall|x: int| lo <= x <= hi implies #[trigger] connected(b, w, h, conn_of(d), sx, sy, x, y) by {
        assert(cleared(on0, on, w, x, y));
        assert(in_grid(x, y, w, h));
    }
}

/// A pixel still ON in the working copy is ink.
proof fn lemma_on_is_ink(b: Seq<u8>, on0: Seq<u8>, on_pop: Seq<u8>, on: Seq<u8>, w: int, h: int, d: int, sx: int, sy: int, x: int, y: int)
    requires
        fill_ctx(b, on0, w, h, d, sx, sy),
        only_cleared(on0, on_pop),
        only_cleared(on_pop, on),
        in_grid(x, y, w, h),
        on[idx(x, y, w)] != 0,
    ensures
        ink_at(b, w, x, y),
        on_pop[idx(x, y, w)] != 0,
        on0[idx(x, y, w)] != 0,
{
    lemma_idx_bounds(x, y, w, h);
    let i = idx(x, y, w);
    assert(on_pop[i] != 0);
    assert(on0[i] != 0);
}

/// Widening the box by the row-`yy` span `xl..=xr` keeps the box invariant;
/// an edge that moves takes a pixel of the span as its witness.
#[verifier::spinoff_prover]
#[verifier::rlimit(40)]
proof fn lemma_bb_push(
    on0: Seq<u8>,
    on: Seq<u8>,
    w: int,
    h: int,
    bx: (int, int, int, int),
    wl: (int, int),
    wr: (int, int),
    wt: (int, int),
    wb: (int, int),
    sx: int,
    sy: int,
    py: int,
    plo: int,
    phi: int,
    xl: int,
    xr: int,
    yy: int,
    npy: int,
    nplo: int,
    nphi: int,
) -> (r: ((int, int), (int, int), (int, int), (int, int)))
    requires
        bb_ok(on0, on, w, h, bx, wl, wr, wt, wb, sx, sy, py, plo, phi),
        0 <= yy < h,
        xl < bx.0 ==> 0 <= xl < w && cleared(on0, on, w, xl, yy),
        xr > bx.1 ==> 0 <= xr < w && cleared(on0, on, w, xr, yy),
        (yy < bx.2 || yy > bx.3) ==> 0 <= xl < w && cleared(on0, on, w, xl, yy),
        forall|x: int| plo <= x <= phi && 0 <= x < w && 0 <= py < h && cleared(on0, on, w, x, py) ==> (py == npy && nplo <= x
            <= nphi) || (py == yy && xl <= x <= xr),
    ensures
        bb_ok(
            on0,
            on,
            w,
            h,
            (
                if xl < bx.0 { xl } else { bx.0 },
                if xr > bx.1 { xr } else { bx.1 },
                if yy < bx.2 { yy } else { bx.2 },
                if yy > bx.3 { yy } else { bx.3 },
            ),
            r.0,
            r.1,
            r.2,
            r.3,
            sx,
            sy,
            npy,
            nplo,
            nphi,
        ),
{
    let nl = if xl < bx.0 { (xl, yy) } else { wl };
    let nr = if xr > bx.1 { (xr, yy) } else { wr };
    let nt = if yy < bx.2 { (xl, yy) } else { wt };
    let nb = if yy > bx.3 { (xl, yy) } else { wb };
    (nl, nr, nt, nb)
}

/// Erasing the ON, seed-connected pixel `(x, y)` of the scanned row keeps
/// the processing state, with `x` joining the pending run and the run of
/// freshly erased pixels.
#[verifier::spinoff_prover]
#[verifier::rlimit(40)]
proof fn lemma_clear_proc(
    b: Seq<u8>,
    on0: Seq<u8>,
    on_pop: Seq<u8>,
    on: Seq<u8>,
    st: Seq<FillSeg>,
    lp: int,
    w: int,
    h: int,
    d: int,
    sx: int,
    sy: int,
    count: int,
    bx: (int, int, int, int),
    wl: (int, int),
    wr: (int, int),
    wt: (int, int),
    wb: (int, int),
    plo: int,
    phi: int,
    x1: int,
    x2: int,
    y: int,
    dy: int,
    x: int,
    nplo: int,
    nphi: int,
    rlo: int,
    rhi: int,
    nrlo: int,
    nrhi: int,
)
    requires
        proc_inv(b, on0, on_pop, on, st, lp, w, h, d, sx, sy, count, bx, wl, wr, wt, wb, plo, phi, x1, x2, y, dy),
        0 <= x < w,
        on[idx(x, y, w)] != 0,
        connected(b, w, h, conn_of(d), sx, sy, x, y),
        nplo <= x <= nphi,
        plo <= phi ==> nplo <= plo && phi <= nphi,
        run_fresh(on_pop, on, w, y, rlo, rhi),
        0 <= nrlo,
        nrhi < w,
        (nrlo == rlo && nrhi == x && x == rhi + 1) || (nrlo == x && nrhi == rhi && x == rlo - 1),
    ensures
        ({
            let on2 = on.update(idx(x, y, w), 0);
            &&& proc_inv(b, on0, on_pop, on2, st, lp, w, h, d, sx, sy, count + 1, bx, wl, wr, wt, wb, nplo, nphi, x1, x2, y, dy)
            &&& run_fresh(on_pop, on2, w, y, nrlo, nrhi)
            &&& count_nonzero(on2) < count_nonzero(on_pop)
            &&& forall|q: int| 0 <= q < w && q != x ==> on2[idx(q, y, w)] == #[trigger] on[idx(q, y, w)]
        }),
{
    let on2 = on.update(idx(x, y, w), 0);
    lemma_clear_step(b, on0, on_pop, on, w, h, d, sx, sy, x, y);
    lemma_count_nonzero_sub(on_pop, on2);
    lemma_idx_bounds(x, y, w, h);
    assert forall|q: int| 0 <= q < w && q != x implies on2[idx(q, y, w)] == #[trigger] on[idx(q, y, w)] by {
        assert(on2[idx(q, y, w)] == on[idx(q, y, w)]);
    }
    assert forall|q: int| nrlo <= q <= nrhi implies #[trigger] cleared(on_pop, on2, w, q, y) by {
        if q != x {
            assert(cleared(on_pop, on, w, q, y));
            lemma_idx_bounds(q, y, w, h);
        }
    }
    assert forall|px: int, py: int| in_grid(px, py, w, h) && #[trigger] cleared(on0, on2, w, px, py) implies (bx.0 <= px <= bx.1
        && bx.2 <= py <= bx.3) || (py == y && nplo <= px <= nphi) by {
        if !(px == x && py == y) {
            lemma_idx_bounds(px, py, w, h);
            crate::seedfill::lemma_pixel_distinct(px, py, x, y, w, h);
            assert(cleared(on0, on, w, px, py));
        }
    }
    assert(wit_ok(on0, on2, w, h, wl, sx, sy));
    assert(wit_ok(on0, on2, w, h, wr, sx, sy));
    assert(wit_ok(on0, on2, w, h, wt, sx, sy));
    assert(wit_ok(on0, on2, w, h, wb, sx, sy));
}

/// Bounding-box witnesses: pixels on the left, right, top and bottom edge.
type Wits = ((int, int), (int, int), (int, int), (int, int));

/// Every pixel `a` covers is covered by `c` as well.
spec fn cov_mono(a: Seq<FillSeg>, c: Seq<FillSeg>, d: int) -> bool {
    forall|qx: int, qy: int| cov(a, d, qx, qy) ==> #[trigger] cov(c, d, qx, qy)
}

/// After the run `xstart..x` of the scanned row `y` has been erased: record
/// it in the box, continue it into row `y + dy`, and send its part beyond
/// `x2` (the leak past the popped segment) back into row `y - dy`.
#[verifier::spinoff_prover]
#[verifier::rlimit(40)]
fn emit_run(
    stack: &mut Vec<FillSeg>,
    xstart: i32,
    x: i32,
    x2: i32,
    y: i32,
    dy: i32,
    d: i32,
    ymax: i32,
    minx: &mut i32,
    maxx: &mut i32,
    miny: &mut i32,
    maxy: &mut i32,
    Ghost(b): Ghost<Seq<u8>>,
    Ghost(on0): Ghost<Seq<u8>>,
    Ghost(on_pop): Ghost<Seq<u8>>,
    Ghost(on): Ghost<Seq<u8>>,
    Ghost(lp): Ghost<int>,
    Ghost(w): Ghost<int>,
    Ghost(h): Ghost<int>,
    Ghost(sx): Ghost<int>,
    Ghost(sy): Ghost<int>,
    Ghost(count): Ghost<int>,
    Ghost(wits): Ghost<Wits>,
    Ghost(x1): Ghost<int>,
) -> (r: Ghost<Wits>)
    requires
        ymax == h - 1,
        proc_inv(b, on0, on_pop, on, old(stack)@, lp, w, h, d as int, sx, sy, count,
            (*old(minx) as int, *old(maxx) as int, *old(miny) as int, *old(maxy) as int), wits.0, wits.1, wits.2, wits.3,
            xstart as int, x - 1, x1, x2 as int, y as int, dy as int),
        0 <= xstart < x <= w,
        xstart <= x2 + d,
        run_fresh(on_pop, on, w, y as int, xstart as int, x - 1),
        count_nonzero(on) < count_nonzero(on_pop),
        closure_inv(on0, on, old(stack)@, w, h, d as int, true, x1, x2 as int, y as int, dy as int, x as int, x as int, xstart as int, x - 1),
        parents_ok(old(stack)@, on, w, h, d as int, true, x1, x2 as int, y as int),
        popped_parent_ok(on_pop, on, old(stack)@, w, h, d as int, x1, x2 as int, y as int, dy as int),
        xstart == 0 || on[idx(xstart - 1, y as int, w)] == 0,
        x == w || on[idx(x as int, y as int, w)] == 0,
        xstart < x1 - 1 + d && 0 <= y - dy < h ==> forall|c: int| xstart - d <= c <= x1 - 1 + d ==> #[trigger] cov(old(stack)@, d as int, c, y - dy),
    ensures
        proc_inv(b, on0, on_pop, on, final(stack)@, lp, w, h, d as int, sx, sy, count,
            (*final(minx) as int, *final(maxx) as int, *final(miny) as int, *final(maxy) as int), r@.0, r@.1, r@.2, r@.3,
            1, 0, x1, x2 as int, y as int, dy as int),
        closure_inv(on0, on, final(stack)@, w, h, d as int, true, x1, x2 as int, y as int, dy as int, -1, -1, 1, 0),
        parents_ok(final(stack)@, on, w, h, d as int, true, x1, x2 as int, y as int),
        popped_parent_ok(on_pop, on, final(stack)@, w, h, d as int, x1, x2 as int, y as int, dy as int),
        cov_mono(old(stack)@, final(stack)@, d as int),
{
    let ghost di = d as int;
    let ghost yi = y as int;
    let ghost dyi = dy as int;
    let ghost x2i = x2 as int;
    proof {
        lemma_run_connected(b, on0, on_pop, on, w, h, di, sx, sy, yi, xstart as int, x - 1);
        if 0 <= yi + dy < h {
            lemma_row_anchor(b, w, h, di, sx, sy, xstart as int, x - 1, yi, yi + dy);
        }
        if 0 <= yi - dy < h {
            lemma_row_anchor(b, w, h, di, sx, sy, xstart as int, x - 1, yi, yi - dy);
        }
    }
    let ghost bx0 = (*minx as int, *maxx as int, *miny as int, *maxy as int);
    let ghost st1 = stack@;
    let ghost s1 = FillSeg { xleft: xstart, xright: (x - 1) as i32, y: y, dy: dy };
    push_fillseg_bb(stack, xstart, x - 1, y, dy, ymax, minx, maxx, miny, maxy);
    let ghost mut nw = wits;
    proof {
        nw = lemma_bb_push(on0, on, w, h, bx0, wits.0, wits.1, wits.2, wits.3, sx, sy, yi, xstart as int, x - 1,
            xstart as int, x - 1, yi, yi, 1, 0);
        assert forall|i: int| 0 <= i < stack@.len() implies seg_ok(#[trigger] stack@[i], b, w, h, di, sx, sy) by {
            if i < st1.len() {
                assert(stack@[i] == st1[i]);
            }
        }
        if 0 <= yi + dy <= h - 1 {
            assert(parent_ok(s1, on, st1.push(s1), w, h, di, true, x1, x2i, yi)) by {
                assert forall|c: int| s1.xleft - 1 <= c <= s1.xright && 0 <= c < w && 0 <= s1.y < h implies #[trigger] on[idx(
                    c,
                    s1.y as int,
                    w,
                )] == 0 by {
                    if c >= xstart {
                        assert(cleared(on_pop, on, w, c, yi));
                    }
                }
            }
            lemma_push_clo(on0, on_pop, on, st1, s1, w, h, di, true, x1, x2i, yi, dyi, x as int, x as int, xstart as int, x - 1);
        }
        assert(cov_mono(st1, stack@, di));
    }
    let ghost st2 = stack@;
    let ghost s2 = FillSeg { xleft: (x2 + 1) as i32, xright: (x - 1) as i32, y: y, dy: (-dy) as i32 };
    if x > x2 + 1 - d {
        let ghost bx1 = (*minx as int, *maxx as int, *miny as int, *maxy as int);
        push_fillseg_bb(stack, x2 + 1, x - 1, y, -dy, ymax, minx, maxx, miny, maxy);
        proof {
            nw = lemma_bb_push(on0, on, w, h, bx1, nw.0, nw.1, nw.2, nw.3, sx, sy, yi, 1, 0, x2 + 1, x - 1, yi, yi, 1, 0);
            assert forall|i: int| 0 <= i < stack@.len() implies seg_ok(#[trigger] stack@[i], b, w, h, di, sx, sy) by {
                if i < st2.len() {
                    assert(stack@[i] == st2[i]);
                }
            }
            if 0 <= yi - dy <= h - 1 {
                assert(parent_ok(s2, on, st2.push(s2), w, h, di, true, x1, x2i, yi)) by {
                    assert forall|c: int| s2.xleft - 1 <= c <= s2.xright && 0 <= c < w && 0 <= s2.y < h implies #[trigger] on[idx(
                        c,
                        s2.y as int,
                        w,
                    )] == 0 by {
                        if c >= xstart {
                            assert(cleared(on_pop, on, w, c, yi));
                        }
                    }
                }
                lemma_push_clo(on0, on_pop, on, st2, s2, w, h, di, true, x1, x2i, yi, dyi, x as int, x as int, xstart as int, x - 1);
            }
        }
    }
    proof {
        let stf = stack@;
        assert(cov_mono(st2, stf, di));
        assert(cov_mono(st1, stf, di));
        assert forall|qx: int, qy: int|
            in_grid(qx, qy, w, h) && on[idx(qx, qy, w)] != 0 && true && #[trigger] pend(di, x1, x2i, yi, dyi, x as int, x as int, xstart as int, x - 1, qx, qy)
                implies cov(stf, di, qx, qy) || (true && pend(di, x1, x2i, yi, dyi, -1, -1, 1, 0, qx, qy)) by {
            if qy == yi && x1 - di <= qx <= x2i + di {
            } else if qy == yi {
                assert(qx == x);
            } else if qy == yi + dyi {
                assert(seg_covers(s1, di, qx, qy));
                assert(cov(st2, di, qx, qy));
            } else {
                assert(qy == yi - dyi);
                if qx < x1 - 1 {
                    assert(cov(st1, di, qx, qy));
                } else if qx <= x2 {
                    if xstart <= qx < x {
                        assert(cleared(on_pop, on, w, qx, yi));
                    }
                    assert(cov(st1, di, qx, qy));
                } else {
                    assert(seg_covers(s2, di, qx, qy));
                }
            }
        }
        lemma_closure_mono(on0, on, stf, w, h, di, true, x1, x2i, yi, dyi, x as int, x as int, xstart as int, x - 1, true, -1, -1, 1, 0);
    }
    Ghost(nw)
}

/// Once the scanned span of row `y` is OFF, the processing of the popped
/// segment owes nothing more.
proof fn lemma_finish_clo(
    on0: Seq<u8>,
    on: Seq<u8>,
    st: Seq<FillSeg>,
    w: int,
    h: int,
    d: int,
    x1: int,
    x2: int,
    y: int,
    dy: int,
)
    requires
        closure_inv(on0, on, st, w, h, d, true, x1, x2, y, dy, -1, -1, 1, 0),
        parents_ok(st, on, w, h, d, true, x1, x2, y),
        row_off(on, w, y, x1 - d, x2 + d + 1),
    ensures
        closure_inv(on0, on, st, w, h, d, false, 0, 0, 0, 0, -1, -1, 1, 0),
        parents_ok(st, on, w, h, d, false, 0, 0, 0),
{
    assert forall|px: int, py: int, qx: int, qy: int|
        in_grid(px, py, w, h) && #[trigger] cleared(on0, on, w, px, py) && in_grid(qx, qy, w, h) && #[trigger] adjacent(conn_of(d), px, py, qx, qy)
            implies on[idx(qx, qy, w)] == 0 || cov(st, d, qx, qy) || (false && pend(d, 0, 0, 0, 0, -1, -1, 1, 0, qx, qy)) by {
        if pend(d, x1, x2, y, dy, -1, -1, 1, 0, qx, qy) {
            assert(on[idx(qx, y, w)] == 0);
        }
    }
    assert forall|i: int| 0 <= i < st.len() implies parent_ok(#[trigger] st[i], on, st, w, h, d, false, 0, 0, 0) by {
        let s = st[i];
        assert(parent_ok(s, on, st, w, h, d, true, x1, x2, y));
        assert forall|c: int| s.xleft - 1 <= c <= s.xright && 0 <= c < w && 0 <= s.y < h implies #[trigger] on[idx(c, s.y as int, w)] == 0
            || cov(st, d, c, s.y as int) || (false && s.y == 0 && 0 - d <= c <= 0 + d) || (c == s.xleft - 1 && d == 0 && 0 <= s.y + s.dy
            < h && on[idx(c, s.y + s.dy, w)] == 0) by {
            if s.y == y && x1 - d <= c <= x2 + d {
                assert(on[idx(c, y, w)] == 0);
            }
        }
    }
}

/// Process one popped segment `x1..=x2`, now scanning row `y` (arrived from
/// row `y - dy`): erase every ON run of row `y` that touches the scanned
/// span `x1 - d ..= x2 + d`, push the continuations, and leave the whole
/// scanned span OFF.
#[verifier::spinoff_prover]
#[verifier::rlimit(60)]
fn fill_segment(
    on: &mut Vec<u8>,
    stack: &mut Vec<FillSeg>,
    w: i32,
    h: i32,
    x1: i32,
    x2: i32,
    y: i32,
    dy: i32,
    d: i32,
    pixel_count: &mut i32,
    minx: &mut i32,
    maxx: &mut i32,
    miny: &mut i32,
    maxy: &mut i32,
    Ghost(b): Ghost<Seq<u8>>,
    Ghost(on0): Ghost<Seq<u8>>,
    Ghost(sx): Ghost<int>,
    Ghost(sy): Ghost<int>,
    Ghost(wits): Ghost<Wits>,
) -> (r: Ghost<Wits>)
    requires
        proc_inv(b, on0, old(on)@, old(on)@, old(stack)@, old(stack)@.len() as int, w as int, h as int, d as int, sx, sy,
            *old(pixel_count) as int, (*old(minx) as int, *old(maxx) as int, *old(miny) as int, *old(maxy) as int),
            wits.0, wits.1, wits.2, wits.3, 1, 0, x1 as int, x2 as int, y as int, dy as int),
        closure_inv(on0, old(on)@, old(stack)@, w as int, h as int, d as int, true, x1 as int, x2 as int, y as int, dy as int, -1, -1, 1, 0),
        parents_ok(old(stack)@, old(on)@, w as int, h as int, d as int, true, x1 as int, x2 as int, y as int),
        popped_parent_ok(old(on)@, old(on)@, old(stack)@, w as int, h as int, d as int, x1 as int, x2 as int, y as int, dy as int),
    ensures
        proc_inv(b, on0, old(on)@, final(on)@, final(stack)@, old(stack)@.len() as int, w as int, h as int, d as int, sx, sy,
            *final(pixel_count) as int, (*final(minx) as int, *final(maxx) as int, *final(miny) as int, *final(maxy) as int),
            r@.0, r@.1, r@.2, r@.3, 1, 0, x1 as int, x2 as int, y as int, dy as int),
        row_off(final(on)@, w as int, y as int, x1 - d, x2 + d + 1),
        closure_inv(on0, final(on)@, final(stack)@, w as int, h as int, d as int, false, 0, 0, 0, 0, -1, -1, 1, 0),
        parents_ok(final(stack)@, final(on)@, w as int, h as int, d as int, false, 0, 0, 0),
{
    let ghost on_pop = on@;
    let ghost lp = stack@.len() as int;
    let ghost wi = w as int;
    let ghost hi = h as int;
    let ghost di = d as int;
    let ghost x1i = x1 as int;
    let ghost x2i = x2 as int;
    let ghost yi = y as int;
    let ghost dyi = dy as int;
    let ghost mut nw = wits;
    let xmax = w - 1;
    let ymax = h - 1;
    proof {
        lemma_idx_bounds(0, yi, wi, hi);
    }
    // Run leftwards from x1 - d.
    let mut x: i32 = x1 - d;
    while x >= 0 && get_bit(on, w, x, y)
        invariant
            wi == w as int,
            hi == h as int,
            di == d as int,
            x1i == x1 as int,
            x2i == x2 as int,
            yi == y as int,
            dyi == dy as int,
            0 <= y * w,
            y * w + w <= w * h,
            proc_inv(b, on0, on_pop, on@, stack@, lp, wi, hi, di, sx, sy, *pixel_count as int,
                (*minx as int, *maxx as int, *miny as int, *maxy as int), nw.0, nw.1, nw.2, nw.3, x + 1, x1 - di, x1i, x2i, yi, dyi),
            -1 <= x <= x1 - d,
            stack@.len() == lp,
            run_fresh(on_pop, on@, wi, yi, x + 1, x1 - di),
            x < x1 - d ==> count_nonzero(on@) < count_nonzero(on_pop),
            closure_inv(on0, on@, stack@, wi, hi, di, true, x1i, x2i, yi, dyi, x as int, if x < x1 - d { x1 - di + 1 } else { -1 }, x + 1,
                x1 - di),
            parents_ok(stack@, on@, wi, hi, di, true, x1i, x2i, yi),
            popped_parent_ok(on_pop, on@, stack@, wi, hi, di, x1i, x2i, yi, dyi),
        decreases x + 1,
    {
        proof {
            lemma_idx_bounds(x as int, yi, wi, hi);
            lemma_on_is_ink(b, on0, on_pop, on@, wi, hi, di, sx, sy, x as int, yi);
            if x < x1 - d {
                lemma_run_connected(b, on0, on_pop, on@, wi, hi, di, sx, sy, yi, x + 1, x1 - di);
                lemma_connected_step(b, wi, hi, conn_of(di), sx, sy, x + 1, yi, x as int, yi);
                assert(cleared(on_pop, on@, wi, x + 1, yi));
            }
            lemma_clear_proc(b, on0, on_pop, on@, stack@, lp, wi, hi, di, sx, sy, *pixel_count as int,
                (*minx as int, *maxx as int, *miny as int, *maxy as int), nw.0, nw.1, nw.2, nw.3, x + 1, x1 - di, x1i, x2i, yi, dyi,
                x as int, x as int, x1 - di, x + 1, x1 - di, x as int, x1 - di);
            lemma_clear_closure(on0, on_pop, on@, stack@, wi, hi, di, x1i, x2i, yi, dyi, x as int,
                if x < x1 - d { x1 - di + 1 } else { -1 }, x + 1, x1 - di, x as int, x - 1, x1 - di + 1, x as int, x1 - di);
        }
        clear_bit(on, w, x, y);
        *pixel_count = *pixel_count + 1;
        x -= 1;
    }
    let mut skip_first = x >= x1 - d;
    let mut xstart: i32 = 0;
    if !skip_first {
        xstart = x + 1;
        proof {
            if x >= 0 {
                lemma_idx_bounds(x as int, yi, wi, hi);
            }
            assert forall|qx: int, qy: int|
                in_grid(qx, qy, wi, hi) && on@[idx(qx, qy, wi)] != 0 && true && #[trigger] pend(di, x1i, x2i, yi, dyi, x as int, x1 - di + 1,
                    x + 1, x1 - di, qx, qy) implies cov(stack@, di, qx, qy) || (true && pend(di, x1i, x2i, yi, dyi, x1 - di + 1, x1 - di + 1,
                    x + 1, x1 - di, qx, qy)) by {}
            lemma_closure_mono(on0, on@, stack@, wi, hi, di, true, x1i, x2i, yi, dyi, x as int, x1 - di + 1, x + 1, x1 - di, true,
                x1 - di + 1, x1 - di + 1, x + 1, x1 - di);
        }
        if xstart < x1 - 1 + d {
            proof {
                lemma_run_connected(b, on0, on_pop, on@, wi, hi, di, sx, sy, yi, xstart as int, x1 - di);
                if 0 <= yi - dy < hi {
                    lemma_row_anchor(b, wi, hi, di, sx, sy, xstart as int, x1 - di, yi, yi - dy);
                }
            }
            let ghost bx0 = (*minx as int, *maxx as int, *miny as int, *maxy as int);
            let ghost st1 = stack@;
            let ghost sl = FillSeg { xleft: xstart, xright: (x1 - 1) as i32, y: y, dy: (-dy) as i32 };
            push_fillseg_bb(stack, xstart, x1 - 1, y, -dy, ymax, minx, maxx, miny, maxy);
            proof {
                nw = lemma_bb_push(on0, on@, wi, hi, bx0, nw.0, nw.1, nw.2, nw.3, sx, sy, yi, xstart as int, x1 - di,
                    xstart as int, x1 - 1, yi, yi, xstart as int, x1 - di);
                assert forall|i: int| 0 <= i < stack@.len() implies seg_ok(#[trigger] stack@[i], b, wi, hi, di, sx, sy) by {
                    if i < st1.len() {
                        assert(stack@[i] == st1[i]);
                    }
                }
                if 0 <= yi - dy <= hi - 1 {
                    assert(parent_ok(sl, on@, st1.push(sl), wi, hi, di, true, x1i, x2i, yi)) by {
                        assert forall|c: int| sl.xleft - 1 <= c <= sl.xright && 0 <= c < wi && 0 <= sl.y < hi implies #[trigger] on@[idx(
                            c,
                            sl.y as int,
                            wi,
                        )] == 0 by {
                            if c >= xstart {
                                assert(cleared(on_pop, on@, wi, c, yi));
                            }
                        }
                    }
                    lemma_push_clo(on0, on_pop, on@, st1, sl, wi, hi, di, true, x1i, x2i, yi, dyi, x1 - di + 1, x1 - di + 1, x + 1, x1 - di);
                    assert forall|c: int| xstart - d <= c <= x1 - 1 + d implies #[trigger] cov(stack@, di, c, yi - dyi) by {
                        assert(seg_covers(sl, di, c, yi - dyi));
                    }
                }
            }
        }
        x = x1 + 1 - d;
        proof {
            assert(cleared(on_pop, on@, wi, x1 - di, yi));
        }
    }
    proof {
        if skip_first {
            assert forall|qx: int, qy: int|
                in_grid(qx, qy, wi, hi) && on@[idx(qx, qy, wi)] != 0 && true && #[trigger] pend(di, x1i, x2i, yi, dyi, x as int, -1, x + 1,
                    x1 - di, qx, qy) implies cov(stack@, di, qx, qy) || (true && pend(di, x1i, x2i, yi, dyi, -1, -1, 0, -1, qx, qy)) by {}
            lemma_closure_mono(on0, on@, stack@, wi, hi, di, true, x1i, x2i, yi, dyi, x as int, -1, x + 1, x1 - di, true, -1, -1, 0, -1);
        }
    }
    loop
        invariant_except_break
            x1 - d <= x <= x2 + d + 1,
            skip_first ==> x == x1 - d && (x < 0 || on@[idx(x as int, yi, wi)] == 0) && xstart == 0,
            !skip_first ==> {
                &&& 0 <= xstart <= x <= w
                &&& xstart <= x2 + d
                &&& run_fresh(on_pop, on@, wi, yi, xstart as int, x - 1)
                &&& x == xstart ==> (x < w && on@[idx(x as int, yi, wi)] != 0 && x <= x2 + d)
                &&& x > xstart ==> count_nonzero(on@) < count_nonzero(on_pop)
                &&& xstart == 0 || on@[idx(xstart - 1, yi, wi)] == 0
                &&& (xstart < x1 - 1 + d && 0 <= yi - dyi < hi) ==> forall|c: int| xstart - d <= c <= x1 - 1 + d ==> #[trigger] cov(
                    stack@,
                    di,
                    c,
                    yi - dyi,
                )
            },
            closure_inv(on0, on@, stack@, wi, hi, di, true, x1i, x2i, yi, dyi, if skip_first { -1 } else { x as int }, if skip_first {
                -1
            } else {
                x as int
            }, xstart as int, if skip_first { xstart - 1 } else { x - 1 }),
        invariant
            wi == w as int,
            hi == h as int,
            di == d as int,
            x1i == x1 as int,
            x2i == x2 as int,
            yi == y as int,
            dyi == dy as int,
            xmax == w - 1,
            ymax == h - 1,
            0 <= y * w,
            y * w + w <= w * h,
            proc_inv(b, on0, on_pop, on@, stack@, lp, wi, hi, di, sx, sy, *pixel_count as int,
                (*minx as int, *maxx as int, *miny as int, *maxy as int), nw.0, nw.1, nw.2, nw.3,
                xstart as int, if skip_first { xstart - 1 } else { x - 1 }, x1i, x2i, yi, dyi),
            row_off(on@, wi, yi, x1 - di, x as int),
            parents_ok(stack@, on@, wi, hi, di, true, x1i, x2i, yi),
            popped_parent_ok(on_pop, on@, stack@, wi, hi, di, x1i, x2i, yi, dyi),
        ensures
            proc_inv(b, on0, on_pop, on@, stack@, lp, wi, hi, di, sx, sy, *pixel_count as int,
                (*minx as int, *maxx as int, *miny as int, *maxy as int), nw.0, nw.1, nw.2, nw.3, 1, 0, x1i, x2i, yi, dyi),
            row_off(on@, wi, yi, x1 - di, x2 + di + 1),
            closure_inv(on0, on@, stack@, wi, hi, di, true, x1i, x2i, yi, dyi, -1, -1, 1, 0),
        decreases x2 + d + 2 - x,
    {
        let ghost x_top = x as int;
        if !skip_first {
            // Run rightwards, erasing.
            while x <= xmax && get_bit(on, w, x, y)
                invariant
                    wi == w as int,
                    hi == h as int,
                    di == d as int,
                    x1i == x1 as int,
                    x2i == x2 as int,
                    yi == y as int,
                    dyi == dy as int,
                    xmax == w - 1,
                    0 <= y * w,
                    y * w + w <= w * h,
                    proc_inv(b, on0, on_pop, on@, stack@, lp, wi, hi, di, sx, sy, *pixel_count as int,
                        (*minx as int, *maxx as int, *miny as int, *maxy as int), nw.0, nw.1, nw.2, nw.3, xstart as int, x - 1, x1i, x2i, yi, dyi),
                    0 <= xstart <= x <= w,
                    x_top <= x,
                    x1 - d <= x,
                    xstart <= x2 + d,
                    run_fresh(on_pop, on@, wi, yi, xstart as int, x - 1),
                    x == xstart ==> (x < w && on@[idx(x as int, yi, wi)] != 0 && x <= x2 + d),
                    x > xstart ==> count_nonzero(on@) < count_nonzero(on_pop),
                    row_off(on@, wi, yi, x1 - di, x as int),
                    closure_inv(on0, on@, stack@, wi, hi, di, true, x1i, x2i, yi, dyi, x as int, x as int, xstart as int, x - 1),
                    parents_ok(stack@, on@, wi, hi, di, true, x1i, x2i, yi),
                    popped_parent_ok(on_pop, on@, stack@, wi, hi, di, x1i, x2i, yi, dyi),
                    xstart == 0 || on@[idx(xstart - 1, yi, wi)] == 0,
                decreases w - x,
            {
                proof {
                    lemma_idx_bounds(x as int, yi, wi, hi);
                    lemma_on_is_ink(b, on0, on_pop, on@, wi, hi, di, sx, sy, x as int, yi);
                    if x > xstart {
                        lemma_run_connected(b, on0, on_pop, on@, wi, hi, di, sx, sy, yi, xstart as int, x - 1);
                        lemma_connected_step(b, wi, hi, conn_of(di), sx, sy, x - 1, yi, x as int, yi);
                        assert(cleared(on_pop, on@, wi, x - 1, yi));
                    }
                    if xstart > 0 {
                        lemma_idx_bounds(xstart - 1, yi, wi, hi);
                    }
                    lemma_clear_proc(b, on0, on_pop, on@, stack@, lp, wi, hi, di, sx, sy, *pixel_count as int,
                        (*minx as int, *maxx as int, *miny as int, *maxy as int), nw.0, nw.1, nw.2, nw.3, xstart as int, x - 1, x1i, x2i, yi, dyi,
                        x as int, xstart as int, x as int, xstart as int, x - 1, xstart as int, x as int);
                    lemma_clear_closure(on0, on_pop, on@, stack@, wi, hi, di, x1i, x2i, yi, dyi, x as int, x as int, xstart as int, x - 1,
                        x as int, x + 1, x + 1, xstart as int, x as int);
                }
                clear_bit(on, w, x, y);
                *pixel_count = *pixel_count + 1;
                x += 1;
            }
            let gw = emit_run(stack, xstart, x, x2, y, dy, d, ymax, minx, maxx, miny, maxy, Ghost(b), Ghost(on0), Ghost(on_pop),
                Ghost(on@), Ghost(lp), Ghost(wi), Ghost(hi), Ghost(sx), Ghost(sy), Ghost(*pixel_count as int), Ghost(nw), Ghost(x1i));
            proof {
                nw = gw@;
            }
        } else {
            proof {
                assert forall|qx: int, qy: int|
                    in_grid(qx, qy, wi, hi) && on@[idx(qx, qy, wi)] != 0 && true && #[trigger] pend(di, x1i, x2i, yi, dyi, -1, -1, 0, -1, qx, qy)
                        implies cov(stack@, di, qx, qy) || (true && pend(di, x1i, x2i, yi, dyi, -1, -1, 1, 0, qx, qy)) by {}
                lemma_closure_mono(on0, on@, stack@, wi, hi, di, true, x1i, x2i, yi, dyi, -1, -1, 0, -1, true, -1, -1, 1, 0);
            }
        }
        skip_first = false;
        x += 1;
        // Skip OFF pixels still inside the scanned span.
        while x <= x2 + d && x <= xmax && !get_bit(on, w, x, y)
            invariant
                wi == w as int,
                di == d as int,
                x1i == x1 as int,
                yi == y as int,
                xmax == w - 1,
                0 <= y * w,
                y * w + w <= w * h,
                on@.len() == w * h,
                w * h <= i32::MAX,
                -1 <= x2 < w,
                0 <= y < h,
                d == 0 || d == 1,
                0 <= x,
                x_top < x,
                x1 - d < x,
                row_off(on@, wi, yi, x1 - di, x as int),
            decreases x2 + d + 1 - x,
        {
            x += 1;
        }
        xstart = x;
        if !(x <= x2 + d && x <= xmax) {
            break;
        }
        proof {
            if x > 0 {
                lemma_idx_bounds(x - 1, yi, wi, hi);
            }
            assert forall|qx: int, qy: int|
                in_grid(qx, qy, wi, hi) && on@[idx(qx, qy, wi)] != 0 && true && #[trigger] pend(di, x1i, x2i, yi, dyi, -1, -1, 1, 0, qx, qy)
                    implies cov(stack@, di, qx, qy) || (true && pend(di, x1i, x2i, yi, dyi, x as int, x as int, x as int, x - 1, qx, qy)) by {}
            lemma_closure_mono(on0, on@, stack@, wi, hi, di, true, x1i, x2i, yi, dyi, -1, -1, 1, 0, true, x as int, x as int, x as int, x - 1);
        }
    }
    proof {
        lemma_finish_clo(on0, on@, stack@, wi, hi, di, x1i, x2i, yi, dyi);
    }
    Ghost(nw)
}

/// No pixel erased from `on0` to `on` has a neighbour still ON in `on`.
pub open spec fn fill_closed(on0: Seq<u8>, on: Seq<u8>, w: int, h: int, conn: int) -> bool {
    forall|px: int, py: int, qx: int, qy: int|
        in_grid(px, py, w, h) && #[trigger] cleared(on0, on, w, px, py) && in_grid(qx, qy, w, h) && #[trigger] adjacent(conn, px, py, qx, qy)
            ==> on[idx(qx, qy, w)] == 0
}

/// Heckbert's scanline seed fill from the ON pixel `(xseed, yseed)` (for
/// 4-connectivity, the left end of its run) for 4-connectivity (`d = 0`) or
/// 8-connectivity (`d = 1`): erases the pixels it reaches, all connected to
/// the seed, and returns their bounding box and their number.
#[verifier::spinoff_prover]
#[verifier::rlimit(40)]
fn scanline_fill(
    on: &mut Vec<u8>,
    w: i32,
    h: i32,
    xseed: i32,
    yseed: i32,
    stack: &mut Vec<FillSeg>,
    d: i32,
    Ghost(b): Ghost<Seq<u8>>,
) -> (r: (ConnCompBox, i32))
    requires
        fill_ctx(b, old(on)@, w as int, h as int, d as int, xseed as int, yseed as int),
        d == 0 && xseed > 0 ==> old(on)@[idx(xseed - 1, yseed as int, w as int)] == 0,
        old(stack)@.len() == 0,
    ensures
        final(stack)@.len() == 0,
        fill_ok(b, old(on)@, final(on)@, w as int, h as int, d as int, xseed as int, yseed as int),
        cleared(old(on)@, final(on)@, w as int, xseed as int, yseed as int),
        r.1 == count_nonzero(old(on)@) - count_nonzero(final(on)@),
        is_bounding_box(r.0, w as int, h as int, cleared_set(old(on)@, final(on)@, w as int)),
        fill_closed(old(on)@, final(on)@, w as int, h as int, conn_of(d as int)),
{
    let ghost on0 = on@;
    let ghost wi = w as int;
    let ghost hi = h as int;
    let ghost di = d as int;
    let ghost sx = xseed as int;
    let ghost sy = yseed as int;
    let ymax = h - 1;
    let mut pixel_count: i32 = 0;
    let mut minx: i32 = 100000;
    let mut miny: i32 = 100000;
    let mut maxx: i32 = 0;
    let mut maxy: i32 = 0;
    push_fillseg_bb(stack, xseed, xseed, yseed, 1, ymax, &mut minx, &mut maxx, &mut miny, &mut maxy);
    push_fillseg_bb(stack, xseed, xseed, yseed + 1, -1, ymax, &mut minx, &mut maxx, &mut miny, &mut maxy);
    minx = xseed;
    maxx = xseed;
    miny = yseed;
    maxy = yseed;
    let ghost mut wits: Wits = ((sx, sy), (sx, sy), (sx, sy), (sx, sy));
    proof {
        lemma_seed_row(b, wi, hi, di, sx, sy);
        if sy + 1 < hi {
            lemma_row_anchor(b, wi, hi, di, sx, sy, sx, sx, sy, sy + 1);
        }
        assert(stack_ok(stack@, b, wi, hi, di, sx, sy));
        assert(is_seed_seg(stack@.last(), sx, sy));
        assert forall|x: int, y: int| in_grid(x, y, wi, hi) implies !#[trigger] cleared(on0, on@, wi, x, y) by {}
        let st = stack@;
        let s2 = FillSeg { xleft: xseed, xright: xseed, y: (yseed + 1) as i32, dy: -1i32 };
        let s1 = FillSeg { xleft: xseed, xright: xseed, y: yseed, dy: 1i32 };
        assert(st.last() == s2);
        assert(seg_covers(st[st.len() - 1], di, sx, sy));
        if sx > 0 {
            lemma_idx_bounds(sx - 1, sy, wi, hi);
        }
        if sy + 1 < hi {
            assert(st[0] == s1);
            assert(seg_covers(st[0], di, sx, sy + 1));
            if di == 1 {
                assert(seg_covers(st[0], di, sx - 1, sy + 1));
            }
        }
        if di == 1 {
            assert(seg_covers(st[st.len() - 1], di, sx - 1, sy));
        }
        assert(on@ == on0);
        assert forall|i: int| 0 <= i < st.len() implies parent_ok(#[trigger] st[i], on@, st, wi, hi, di, false, 0, 0, 0) by {
            if i == st.len() - 1 {
                assert forall|c: int| sx - 1 <= c <= sx && 0 <= c < wi && 0 <= sy + 1 < hi implies #[trigger] on@[idx(c, sy + 1, wi)] == 0
                    || cov(st, di, c, sy + 1) || (c == sx - 1 && di == 0 && 0 <= sy < hi && on@[idx(c, sy, wi)] == 0) by {
                    assert(st[0] == s1);
                    if c == sx {
                        assert(seg_covers(st[0], di, c, sy + 1));
                    } else if di == 1 {
                        assert(seg_covers(st[0], di, c, sy + 1));
                    }
                }
            } else {
                assert(st[i] == s1);
                assert forall|c: int| sx - 1 <= c <= sx && 0 <= c < wi && 0 <= sy < hi implies #[trigger] on@[idx(c, sy, wi)] == 0
                    || cov(st, di, c, sy) by {
                    if c == sx || di == 1 {
                        assert(seg_covers(st[st.len() - 1], di, c, sy));
                    }
                }
            }
        }
    }
    loop
        invariant
            wi == w as int,
            hi == h as int,
            di == d as int,
            sx == xseed as int,
            sy == yseed as int,
            ymax == h - 1,
            pop_inv(b, on0, on@, stack@, wi, hi, di, sx, sy, pixel_count as int, (minx as int, maxx as int, miny as int, maxy as int),
                wits.0, wits.1, wits.2, wits.3),
            closure_inv(on0, on@, stack@, wi, hi, di, false, 0, 0, 0, 0, -1, -1, 1, 0),
            parents_ok(stack@, on@, wi, hi, di, false, 0, 0, 0),
        ensures
            stack@.len() == 0,
            pop_inv(b, on0, on@, stack@, wi, hi, di, sx, sy, pixel_count as int, (minx as int, maxx as int, miny as int, maxy as int),
                wits.0, wits.1, wits.2, wits.3),
            closure_inv(on0, on@, stack@, wi, hi, di, false, 0, 0, 0, 0, -1, -1, 1, 0),
        decreases count_nonzero(on@), stack@.len(),
    {
        let ghost st0 = stack@;
        let ghost on_pop = on@;
        let popped = pop_fillseg(stack);
        if popped.is_none() {
            break;
        }
        let (x1, x2, y, dy) = popped.unwrap();
        proof {
            assert(seg_ok(st0[st0.len() - 1], b, wi, hi, di, sx, sy));
            lemma_pop_clo(on0, on@, st0, wi, hi, di);
            assert forall|i: int| 0 <= i < stack@.len() implies seg_ok(#[trigger] stack@[i], b, wi, hi, di, sx, sy) by {
                assert(stack@[i] == st0[i]);
            }
        }
        let gw = fill_segment(on, stack, w, h, x1, x2, y, dy, d, &mut pixel_count, &mut minx, &mut maxx, &mut miny, &mut maxy,
            Ghost(b), Ghost(on0), Ghost(sx), Ghost(sy), Ghost(wits));
        proof {
            wits = gw@;
            if !cleared(on0, on@, wi, sx, sy) {
                lemma_idx_bounds(sx, sy, wi, hi);
                assert(on@[idx(sx, sy, wi)] == 0);
            }
        }
    }
    proof {
        assert(cleared(on0, on@, wi, sx, sy));
        assert forall|px: int, py: int, qx: int, qy: int|
            in_grid(px, py, wi, hi) && #[trigger] cleared(on0, on@, wi, px, py) && in_grid(qx, qy, wi, hi) && #[trigger] adjacent(conn_of(di), px, py, qx, qy)
                implies on@[idx(qx, qy, wi)] == 0 by {
            if on@[idx(qx, qy, wi)] != 0 {
                assert(cov(stack@, di, qx, qy));
            }
        }
        let m = cleared_set(on0, on@, wi);
        assert(m(wits.0.0, wits.0.1));
        assert(m(wits.1.0, wits.1.1));
        assert(m(wits.2.0, wits.2.1));
        assert(m(wits.3.0, wits.3.1));
        assert forall|x: int, y: int| in_grid(x, y, wi, hi) && #[trigger] m(x, y) implies minx <= x <= maxx && miny <= y <= maxy by {
            assert(cleared(on0, on@, wi, x, y));
        }
    }
    let bbox = ConnCompBox { x: minx, y: miny, w: maxx - minx + 1, h: maxy - miny + 1 };
    proof {
        let m = cleared_set(on0, on@, wi);
        assert(0 <= bbox.x && 1 <= bbox.w && bbox.x + bbox.w <= wi);
        assert(0 <= bbox.y && 1 <= bbox.h && bbox.y + bbox.h <= hi);
        assert(exists|y: int| 0 <= y < hi && #[trigger] m(bbox.x as int, y));
        assert(m(bbox.x + bbox.w - 1, wits.1.1));
        assert(exists|y: int| 0 <= y < hi && #[trigger] m(bbox.x + bbox.w - 1, y));
        assert(exists|x: int| 0 <= x < wi && #[trigger] m(x, bbox.y as int));
        assert(m(wits.3.0, bbox.y + bbox.h - 1));
        assert(exists|x: int| 0 <= x < wi && #[trigger] m(x, bbox.y + bbox.h - 1));
    }
    (bbox, pixel_count)
}

/// A run of ink pixels `lo..=hi` of row `y` is 4-connected from its right
/// end to its left end.
proof fn lemma_row_run_connected(b: Seq<u8>, w: int, h: int, y: int, lo: int, hi: int)
    requires
        0 <= lo <= hi < w,
        0 <= y < h,
        forall|x: int| lo <= x <= hi ==> #[trigger] ink_at(b, w, x, y),
    ensures
        connected(b, w, h, 4, hi, y, lo, y),
    decreases hi - lo,
{
    if lo == hi {
        assert(connected(b, w, h, 4, hi, y, hi, y));
    } else {
        lemma_row_run_connected(b, w, h, y, lo + 1, hi);
        assert(ink_at(b, w, lo, y));
        lemma_connected_step(b, w, h, 4, hi, y, lo + 1, y, lo, y);
    }
}

/// A closed fill that erased the left end of a run of ON pixels erased the
/// whole run.
proof fn lemma_row_run_cleared(on0: Seq<u8>, on: Seq<u8>, w: int, h: int, y: int, lo: int, hi: int)
    requires
        0 <= lo <= hi < w,
        0 <= y < h,
        on0.len() == w * h,
        on.len() == w * h,
        cleared(on0, on, w, lo, y),
        fill_closed(on0, on, w, h, 4),
        forall|x: int| lo <= x <= hi ==> #[trigger] on0[idx(x, y, w)] != 0,
    ensures
        forall|x: int| lo <= x <= hi ==> #[trigger] cleared(on0, on, w, x, y),
    decreases hi - lo,
{
    if lo < hi {
        assert(on0[idx(hi, y, w)] != 0);
        lemma_row_run_cleared(on0, on, w, h, y, lo, hi - 1);
        assert(cleared(on0, on, w, hi - 1, y));
        assert(adjacent(4, hi - 1, y, hi, y));
        assert(on[idx(hi, y, w)] == 0);
        assert(cleared(on0, on, w, hi, y));
    }
}

/// Erase the 4-connected component of the ON pixel `(xseed, yseed)`,
/// returning its bounding box and pixel count. The fill starts from the
/// left end of the seed's run of ON pixels, the run start that the
/// scanline fill's left-leak test relies on.
fn seedfill4_bb(on: &mut Vec<u8>, w: i32, h: i32, xseed: i32, yseed: i32, stack: &mut Vec<FillSeg>, Ghost(b): Ghost<Seq<u8>>) -> (r: (
    ConnCompBox,
    i32,
))
    requires
        fill_ctx(b, old(on)@, w as int, h as int, 0, xseed as int, yseed as int),
        old(stack)@.len() == 0,
    ensures
        final(stack)@.len() == 0,
        fill_ok(b, old(on)@, final(on)@, w as int, h as int, 0, xseed as int, yseed as int),
        forall|i: int| 0 <= i < old(on)@.len() && !(old(on)@[i] != 0 && final(on)@[i] == 0) ==> final(on)@[i] == old(on)@[i],
        cleared(old(on)@, final(on)@, w as int, xseed as int, yseed as int),
        r.1 == count_nonzero(old(on)@) - count_nonzero(final(on)@),
        is_bounding_box(r.0, w as int, h as int, cleared_set(old(on)@, final(on)@, w as int)),
        fill_closed(old(on)@, final(on)@, w as int, h as int, 4),
{
    let ghost on0 = on@;
    let ghost wi = w as int;
    let ghost hi = h as int;
    let ghost sy = yseed as int;
    let mut xs: i32 = xseed;
    proof {
        lemma_idx_bounds(xseed as int, sy, wi, hi);
    }
    while xs > 0
        invariant
            on@ == on0,
            wi == w as int,
            hi == h as int,
            sy == yseed as int,
            fill_ctx(b, on0, wi, hi, 0, xseed as int, sy),
            0 <= xs <= xseed,
            forall|x: int| xs <= x <= xseed ==> #[trigger] on0[idx(x, sy, wi)] != 0,
        ensures
            0 <= xs <= xseed,
            forall|x: int| xs <= x <= xseed ==> #[trigger] on0[idx(x, sy, wi)] != 0,
            xs > 0 ==> on0[idx(xs - 1, sy, wi)] == 0,
        decreases xs,
    {
        proof {
            lemma_idx_bounds(xs - 1, sy, wi, hi);
        }
        if !get_bit(on, w, xs - 1, yseed) {
            break;
        }
        xs -= 1;
    }
    let ghost sx = xs as int;
    proof {
        if sx > 0 {
            lemma_idx_bounds(sx - 1, sy, wi, hi);
        }
        assert(on0[idx(sx, sy, wi)] != 0);
        assert forall|x: int| sx <= x <= xseed implies #[trigger] ink_at(b, wi, x, sy) by {
            lemma_idx_bounds(x, sy, wi, hi);
            assert(on0[idx(x, sy, wi)] != 0);
        }
    }
    let r = scanline_fill(on, w, h, xs, yseed, stack, 0, Ghost(b));
    proof {
        lemma_row_run_connected(b, wi, hi, sy, sx, xseed as int);
        assert forall|x: int, y: int| in_grid(x, y, wi, hi) && #[trigger] cleared(on0, on@, wi, x, y) implies connected(b, wi, hi, conn_of(0),
            xseed as int, sy, x, y) by {
            lemma_connected_trans(b, wi, hi, 4, xseed as int, sy, sx, sy, x, y);
        }
        lemma_row_run_cleared(on0, on@, wi, hi, sy, sx, xseed as int);
        assert(cleared(on0, on@, wi, xseed as int, sy));
    }
    r
}

/// Erase the 8-connected component of the ON pixel `(xseed, yseed)`,
/// returning its bounding box and pixel count (the scanned span is widened
/// by one column on each side).
fn seedfill8_bb(on: &mut Vec<u8>, w: i32, h: i32, xseed: i32, yseed: i32, stack: &mut Vec<FillSeg>, Ghost(b): Ghost<Seq<u8>>) -> (r: (
    ConnCompBox,
    i32,
))
    requires
        fill_ctx(b, old(on)@, w as int, h as int, 1, xseed as int, yseed as int),
        old(stack)@.len() == 0,
    ensures
        final(stack)@.len() == 0,
        fill_ok(b, old(on)@, final(on)@, w as int, h as int, 1, xseed as int, yseed as int),
        forall|i: int| 0 <= i < old(on)@.len() && !(old(on)@[i] != 0 && final(on)@[i] == 0) ==> final(on)@[i] == old(on)@[i],
        cleared(old(on)@, final(on)@, w as int, xseed as int, yseed as int),
        r.1 == count_nonzero(old(on)@) - count_nonzero(final(on)@),
        is_bounding_box(r.0, w as int, h as int, cleared_set(old(on)@, final(on)@, w as int)),
        fill_closed(old(on)@, final(on)@, w as int, h as int, 8),
{
    scanline_fill(on, w, h, xseed, yseed, stack, 1, Ghost(b))
}

/// Number of entries equal to `k`.
pub open spec fn count_label(lab: Seq<int>, k: int) -> nat
    decreases lab.len(),
{
    if lab.len() == 0 {
        0
    } else {
        count_label(lab.drop_last(), k) + if lab.last() == k { 1nat } else { 0nat }
    }
}

/// The pixels labelled `k`, as a predicate on coordinates.
pub open spec fn label_set(lab: Seq<int>, w: int, k: int) -> spec_fn(int, int) -> bool {
    |x: int, y: int| lab[idx(x, y, w)] == k
}

/// `lab` labels ink pixels of the `w × h` image `b` (`-1`: unlabelled)
/// with the indices of the components `cs`; component `k` grows from
/// `seeds[k]`, its first pixel in raster order, and seeds come in raster
/// order; each listed count and box are those of the pixels carrying the
/// label; every labelled pixel is connected to its seed.
pub open spec fn partial_labeling(lab: Seq<int>, seeds: Seq<(int, int)>, b: Seq<u8>, w: int, h: int, conn: int, cs: Seq<ConnComp>) -> bool {
    &&& lab.len() == w * h
    &&& b.len() == w * h
    &&& seeds.len() == cs.len()
    &&& forall|i: int| 0 <= i < w * h ==> -1 <= #[trigger] lab[i] < cs.len() && (lab[i] >= 0 ==> b[i] == 0)
    &&& forall|k: int| 0 <= k < cs.len() ==> in_grid(#[trigger] seeds[k].0, seeds[k].1, w, h) && lab[idx(seeds[k].0, seeds[k].1, w)] == k
    &&& forall|k: int, j: int| 0 <= k < j < cs.len() ==> idx(#[trigger] seeds[k].0, seeds[k].1, w) < idx(#[trigger] seeds[j].0, seeds[j].1, w)
    &&& forall|x: int, y: int| in_grid(x, y, w, h) && 0 <= #[trigger] lab[idx(x, y, w)] ==> {
        let k = lab[idx(x, y, w)];
        &&& idx(seeds[k].0, seeds[k].1, w) <= idx(x, y, w)
        &&& connected(b, w, h, conn, seeds[k].0, seeds[k].1, x, y)
    }
    &&& forall|k: int| 0 <= k < cs.len() ==> #[trigger] cs[k].pixel_count == count_label(lab, k)
    &&& forall|k: int| 0 <= k < cs.len() ==> is_bounding_box(#[trigger] cs[k].bb, w, h, label_set(lab, w, k))
}

/// A labelled pixel passes its label on to every adjacent ink pixel.
pub open spec fn labels_closed(lab: Seq<int>, b: Seq<u8>, w: int, h: int, conn: int) -> bool {
    forall|px: int, py: int, qx: int, qy: int|
        in_grid(px, py, w, h) && in_grid(qx, qy, w, h) && #[trigger] adjacent(conn, px, py, qx, qy) && 0 <= lab[idx(px, py, w)]
            && ink_at(b, w, qx, qy) ==> lab[idx(qx, qy, w)] == lab[idx(px, py, w)]
}

/// A partial labelling that labels every ink pixel, giving adjacent ink
/// pixels the same label: each label marks a whole connected component.
pub open spec fn labeling_ok(lab: Seq<int>, seeds: Seq<(int, int)>, b: Seq<u8>, w: int, h: int, conn: int, cs: Seq<ConnComp>) -> bool {
    &&& partial_labeling(lab, seeds, b, w, h, conn, cs)
    &&& forall|i: int| 0 <= i < w * h && #[trigger] b[i] == 0 ==> lab[i] >= 0
    &&& labels_closed(lab, b, w, h, conn)
}

/// `cs` lists the components of the binary image `b` as described by some
/// labelling (see [`labeling_ok`]).
pub open spec fn is_components(cs: Seq<ConnComp>, b: Seq<u8>, w: int, h: int, conn: int) -> bool {
    exists|lab: Seq<int>, seeds: Seq<(int, int)>| #[trigger] labeling_ok(lab, seeds, b, w, h, conn, cs)
}

/// Under a complete labelling, the pixels labelled `k` are exactly the
/// pixels connected to the seed of component `k`: each listed component is
/// a whole connected component of the ink, neither split nor merged.
pub proof fn lemma_label_is_component(
    lab: Seq<int>,
    seeds: Seq<(int, int)>,
    b: Seq<u8>,
    w: int,
    h: int,
    conn: int,
    cs: Seq<ConnComp>,
    k: int,
    x: int,
    y: int,
)
    requires
        labeling_ok(lab, seeds, b, w, h, conn, cs),
        0 <= k < cs.len(),
        in_grid(x, y, w, h),
    ensures
        lab[idx(x, y, w)] == k <==> connected(b, w, h, conn, seeds[k].0, seeds[k].1, x, y),
{
    if connected(b, w, h, conn, seeds[k].0, seeds[k].1, x, y) {
        let comp = Set::new(|p: (int, int)| in_grid(p.0, p.1, w, h) && lab[idx(p.0, p.1, w)] == k);
        assert(ink_closed(comp, b, w, h, conn)) by {
            assert forall|px: int, py: int, qx: int, qy: int|
                #[trigger] comp.contains((px, py)) && in_grid(qx, qy, w, h) && #[trigger] adjacent(conn, px, py, qx, qy) && ink_at(b, w, qx, qy)
                    implies comp.contains((qx, qy)) by {
                assert(lab[idx(qx, qy, w)] == lab[idx(px, py, w)]);
            }
        }
        assert(comp.contains((seeds[k].0, seeds[k].1)));
        assert(comp.contains((x, y)));
    }
}

/// Total ink pixel count of a component list.
pub open spec fn total_pixels(cs: Seq<ConnComp>) -> int
    decreases cs.len(),
{
    if cs.len() == 0 {
        0
    } else {
        total_pixels(cs.drop_last()) + cs.last().pixel_count
    }
}

/// Number of ink (`0`) bytes of a binary image.
pub open spec fn ink_count(b: Seq<u8>) -> nat
    decreases b.len(),
{
    if b.len() == 0 {
        0
    } else {
        ink_count(b.drop_last()) + if b.last() == 0 { 1nat } else { 0nat }
    }
}

/// Pixels carrying a label in `0..n`, summed label by label.
spec fn label_sum(lab: Seq<int>, n: int) -> int
    decreases n,
{
    if n <= 0 {
        0
    } else {
        label_sum(lab, n - 1) + count_label(lab, n - 1)
    }
}

/// Number of entries carrying a label in `0..n`.
spec fn labelled_below(lab: Seq<int>, n: int) -> int
    decreases lab.len(),
{
    if lab.len() == 0 {
        0
    } else {
        labelled_below(lab.drop_last(), n) + if 0 <= lab.last() < n { 1int } else { 0int }
    }
}

proof fn lemma_label_sum_drop_last(lab: Seq<int>, n: int)
    requires
        lab.len() > 0,
        n >= 0,
    ensures
        label_sum(lab, n) == label_sum(lab.drop_last(), n) + if 0 <= lab.last() < n { 1int } else { 0int },
    decreases n,
{
    if n > 0 {
        lemma_label_sum_drop_last(lab, n - 1);
    }
}

proof fn lemma_label_sum_counts(lab: Seq<int>, n: int)
    requires
        n >= 0,
    ensures
        label_sum(lab, n) == labelled_below(lab, n),
    decreases lab.len(),
{
    if lab.len() == 0 {
        lemma_label_sum_empty(lab, n);
    } else {
        lemma_label_sum_drop_last(lab, n);
        lemma_label_sum_counts(lab.drop_last(), n);
    }
}

proof fn lemma_label_sum_empty(lab: Seq<int>, n: int)
    requires
        lab.len() == 0,
        n >= 0,
    ensures
        label_sum(lab, n) == 0,
    decreases n,
{
    if n > 0 {
        lemma_label_sum_empty(lab, n - 1);
    }
}

proof fn lemma_labelled_is_ink(lab: Seq<int>, b: Seq<u8>, n: int)
    requires
        lab.len() == b.len(),
        forall|i: int| 0 <= i < lab.len() ==> (0 <= #[trigger] lab[i] <==> b[i] == 0) && lab[i] < n,
    ensures
        labelled_below(lab, n) == ink_count(b),
    decreases lab.len(),
{
    if lab.len() > 0 {
        let l2 = lab.drop_last();
        let b2 = b.drop_last();
        assert forall|i: int| 0 <= i < l2.len() implies (0 <= #[trigger] l2[i] <==> b2[i] == 0) && l2[i] < n by {
            assert(l2[i] == lab[i] && b2[i] == b[i]);
        }
        lemma_labelled_is_ink(l2, b2, n);
        assert(0 <= lab[lab.len() - 1] <==> b[b.len() - 1] == 0);
    }
}

proof fn lemma_total_is_label_sum(cs: Seq<ConnComp>, lab: Seq<int>)
    requires
        forall|k: int| 0 <= k < cs.len() ==> #[trigger] cs[k].pixel_count == count_label(lab, k),
    ensures
        total_pixels(cs) == label_sum(lab, cs.len() as int),
    decreases cs.len(),
{
    if cs.len() > 0 {
        let c2 = cs.drop_last();
        assert forall|k: int| 0 <= k < c2.len() implies #[trigger] c2[k].pixel_count == count_label(lab, k) by {
            assert(c2[k] == cs[k]);
        }
        lemma_total_is_label_sum(c2, lab);
        assert(cs.last().pixel_count == count_label(lab, cs.len() - 1));
    }
}

/// Law: the components of a complete labelling share out the ink: their
/// pixel counts add up to the number of ink pixels, each counted once.
pub proof fn lemma_counts_partition_ink(lab: Seq<int>, seeds: Seq<(int, int)>, b: Seq<u8>, w: int, h: int, conn: int, cs: Seq<ConnComp>)
    requires
        labeling_ok(lab, seeds, b, w, h, conn, cs),
    ensures
        total_pixels(cs) == ink_count(b),
{
    lemma_total_is_label_sum(cs, lab);
    lemma_label_sum_counts(lab, cs.len() as int);
    assert forall|i: int| 0 <= i < lab.len() implies (0 <= #[trigger] lab[i] <==> b[i] == 0) && lab[i] < cs.len() by {
        assert(-1 <= lab[i] < cs.len() && (lab[i] >= 0 ==> b[i] == 0));
        if b[i] == 0 {
            assert(lab[i] >= 0);
        }
    }
    lemma_labelled_is_ink(lab, b, cs.len() as int);
}

/// The boxes of a component list.
pub open spec fn boxes_of(cs: Seq<ConnComp>) -> Seq<ConnCompBox> {
    Seq::new(cs.len(), |k: int| cs[k].bb)
}

/// Counting a label over two labellings that agree on it gives the same
/// number.
proof fn lemma_count_label_same(a: Seq<int>, c: Seq<int>, k: int)
    requires
        a.len() == c.len(),
        forall|i: int| 0 <= i < a.len() ==> (a[i] == k <==> c[i] == k),
    ensures
        count_label(a, k) == count_label(c, k),
    decreases a.len(),
{
    if a.len() > 0 {
        lemma_count_label_same(a.drop_last(), c.drop_last(), k);
    }
}

/// A fresh label put exactly on the pixels erased from `a` to `c` counts
/// the non-zero entries lost.
proof fn lemma_count_label_cleared(lab: Seq<int>, a: Seq<u8>, c: Seq<u8>, k: int)
    requires
        lab.len() == a.len(),
        only_cleared(a, c),
        forall|i: int| 0 <= i < lab.len() ==> (lab[i] == k <==> (a[i] != 0 && c[i] == 0)),
    ensures
        count_label(lab, k) == count_nonzero(a) - count_nonzero(c),
    decreases lab.len(),
{
    if lab.len() > 0 {
        let a2 = a.drop_last();
        let c2 = c.drop_last();
        assert forall|i: int| 0 <= i < c2.len() && #[trigger] c2[i] != 0 implies a2[i] != 0 by {
            assert(c[i] != 0);
        }
        lemma_count_label_cleared(lab.drop_last(), a2, c2, k);
        let n = lab.len() - 1;
        assert(c[n] != 0 ==> a[n] != 0);
    }
}

/// A box property only depends on the predicate inside the grid.
proof fn lemma_bounding_box_same(bb: ConnCompBox, w: int, h: int, m1: spec_fn(int, int) -> bool, m2: spec_fn(int, int) -> bool)
    requires
        is_bounding_box(bb, w, h, m1),
        forall|x: int, y: int| #![trigger m1(x, y)] #![trigger m2(x, y)] in_grid(x, y, w, h) ==> m1(x, y) == m2(x, y),
    ensures
        is_bounding_box(bb, w, h, m2),
{
    let y1 = choose|y: int| 0 <= y < h && #[trigger] m1(bb.x as int, y);
    assert(m2(bb.x as int, y1));
    let y2 = choose|y: int| 0 <= y < h && #[trigger] m1(bb.x + bb.w - 1, y);
    assert(m2(bb.x + bb.w - 1, y2));
    let x3 = choose|x: int| 0 <= x < w && #[trigger] m1(x, bb.y as int);
    assert(m2(x3, bb.y as int));
    let x4 = choose|x: int| 0 <= x < w && #[trigger] m1(x, bb.y + bb.h - 1);
    assert(m2(x4, bb.y + bb.h - 1));
    assert forall|x: int, y: int| in_grid(x, y, w, h) && #[trigger] m2(x, y) implies bb.x <= x < bb.x + bb.w && bb.y <= y < bb.y + bb.h by {
        assert(m1(x, y));
    }
}

/// The labelling so far, the working copy holding exactly the unlabelled
/// ink, and the raster scan resuming at `(xs, ys)`.
spec fn areas_inv(lab: Seq<int>, seeds: Seq<(int, int)>, b: Seq<u8>, w: int, h: int, conn: int, cs: Seq<ConnComp>, on: Seq<u8>, xs: int, ys: int) -> bool {
    &&& partial_labeling(lab, seeds, b, w, h, conn, cs)
    &&& labels_closed(lab, b, w, h, conn)
    &&& on.len() == w * h
    &&& forall|i: int| 0 <= i < w * h ==> (#[trigger] on[i] != 0 <==> (b[i] == 0 && lab[i] == -1))
    &&& in_grid(xs, ys, w, h)
    &&& forall|i: int| 0 <= i < idx(xs, ys, w) ==> #[trigger] on[i] == 0
    &&& forall|k: int| 0 <= k < cs.len() ==> idx(#[trigger] seeds[k].0, seeds[k].1, w) <= idx(xs, ys, w)
}

/// Labelling the pixels a closed seed fill erased with a fresh label keeps
/// labels passing on to adjacent ink: the fill reached every unlabelled ink
/// neighbour of what it erased, and no earlier label touches it.
proof fn lemma_labels_closed_add(
    lab: Seq<int>,
    lab2: Seq<int>,
    b: Seq<u8>,
    on_b: Seq<u8>,
    on_a: Seq<u8>,
    w: int,
    h: int,
    conn: int,
    kk: int,
)
    requires
        lab.len() == w * h,
        lab2.len() == w * h,
        b.len() == w * h,
        on_b.len() == w * h,
        labels_closed(lab, b, w, h, conn),
        forall|i: int| 0 <= i < w * h ==> -1 <= #[trigger] lab[i],
        forall|i: int| 0 <= i < w * h ==> (#[trigger] on_b[i] != 0 <==> (b[i] == 0 && lab[i] == -1)),
        forall|i: int| 0 <= i < w * h ==> #[trigger] lab2[i] == if on_b[i] != 0 && on_a[i] == 0 { kk } else { lab[i] },
        fill_closed(on_b, on_a, w, h, conn),
    ensures
        labels_closed(lab2, b, w, h, conn),
{
    assert forall|px: int, py: int, qx: int, qy: int|
        in_grid(px, py, w, h) && in_grid(qx, qy, w, h) && #[trigger] adjacent(conn, px, py, qx, qy) && 0 <= lab2[idx(px, py, w)]
            && ink_at(b, w, qx, qy) implies lab2[idx(qx, qy, w)] == lab2[idx(px, py, w)] by {
        lemma_idx_bounds(px, py, w, h);
        lemma_idx_bounds(qx, qy, w, h);
        let ip = idx(px, py, w);
        let iq = idx(qx, qy, w);
        assert(adjacent(conn, qx, qy, px, py));
        assert(lab2[ip] == if on_b[ip] != 0 && on_a[ip] == 0 { kk } else { lab[ip] });
        assert(lab2[iq] == if on_b[iq] != 0 && on_a[iq] == 0 { kk } else { lab[iq] });
        if on_b[ip] != 0 && on_a[ip] == 0 {
            assert(cleared(on_b, on_a, w, px, py));
            assert(on_a[iq] == 0);
            assert(on_b[ip] != 0);
            if lab[iq] >= 0 {
                assert(b[ip] == 0);
                assert(ink_at(b, w, px, py));
                assert(lab[ip] == lab[iq]);
            }
            assert(on_b[iq] != 0);
        } else {
            assert(lab[iq] == lab[ip]);
            assert(on_b[iq] == 0);
        }
    }
}

/// Adding the component erased by a seed fill from `(x, y)`, the next ON
/// pixel of the raster scan, extends the labelling.
#[verifier::spinoff_prover]
#[verifier::rlimit(40)]
proof fn lemma_add_component(
    lab: Seq<int>,
    seeds: Seq<(int, int)>,
    b: Seq<u8>,
    w: int,
    h: int,
    d: int,
    cs: Seq<ConnComp>,
    on_b: Seq<u8>,
    on_a: Seq<u8>,
    xs: int,
    ys: int,
    x: int,
    y: int,
    c: ConnComp,
) -> (lab2: Seq<int>)
    requires
        areas_inv(lab, seeds, b, w, h, conn_of(d), cs, on_b, xs, ys),
        d == 0 || d == 1,
        in_grid(x, y, w, h),
        on_b[idx(x, y, w)] != 0,
        idx(xs, ys, w) <= idx(x, y, w),
        forall|i: int| idx(xs, ys, w) <= i < idx(x, y, w) ==> on_b[i] == 0,
        fill_ok(b, on_b, on_a, w, h, d, x, y),
        cleared(on_b, on_a, w, x, y),
        c.pixel_count == count_nonzero(on_b) - count_nonzero(on_a),
        is_bounding_box(c.bb, w, h, cleared_set(on_b, on_a, w)),
        fill_closed(on_b, on_a, w, h, conn_of(d)),
    ensures
        areas_inv(lab2, seeds.push((x, y)), b, w, h, conn_of(d), cs.push(c), on_a, x, y),
        count_nonzero(on_a) < count_nonzero(on_b),
{
    let n = w * h;
    let kk = cs.len() as int;
    let lab2 = Seq::new(n as nat, |i: int| if on_b[i] != 0 && on_a[i] == 0 { kk } else { lab[i] });
    let seeds2 = seeds.push((x, y));
    let cs2 = cs.push(c);
    let conn = conn_of(d);
    lemma_idx_bounds(x, y, w, h);
    lemma_count_nonzero_sub(on_b, on_a);
    assert forall|i: int| 0 <= i < n implies -1 <= #[trigger] lab2[i] < cs2.len() && (lab2[i] >= 0 ==> b[i] == 0) by {
        assert(-1 <= lab[i] < cs.len());
        if on_b[i] != 0 {
            assert(b[i] == 0);
        }
    }
    assert forall|i: int| 0 <= i < n implies (#[trigger] on_a[i] != 0 <==> (b[i] == 0 && lab2[i] == -1)) by {
        assert(on_b[i] != 0 <==> (b[i] == 0 && lab[i] == -1));
        if on_a[i] != 0 {
            assert(on_b[i] != 0);
        }
    }
    assert forall|k: int| 0 <= k < cs2.len() implies in_grid(#[trigger] seeds2[k].0, seeds2[k].1, w, h) && lab2[idx(seeds2[k].0, seeds2[k].1, w)] == k by {
        if k < cs.len() {
            assert(seeds2[k] == seeds[k]);
            lemma_idx_bounds(seeds[k].0, seeds[k].1, w, h);
            let si = idx(seeds[k].0, seeds[k].1, w);
            assert(lab[si] == k);
            assert(on_b[si] == 0);
        }
    }
    assert forall|k: int, j: int| 0 <= k < j < cs2.len() implies idx(#[trigger] seeds2[k].0, seeds2[k].1, w) < idx(#[trigger] seeds2[j].0, seeds2[j].1, w) by {
        if j < cs.len() {
            assert(seeds2[k] == seeds[k] && seeds2[j] == seeds[j]);
        } else {
            assert(seeds2[k] == seeds[k]);
            lemma_idx_bounds(seeds[k].0, seeds[k].1, w, h);
            let si = idx(seeds[k].0, seeds[k].1, w);
            assert(lab[si] == k);
            assert(on_b[si] == 0);
        }
    }
    assert forall|px: int, py: int| in_grid(px, py, w, h) && 0 <= #[trigger] lab2[idx(px, py, w)] implies {
        let k = lab2[idx(px, py, w)];
        &&& idx(seeds2[k].0, seeds2[k].1, w) <= idx(px, py, w)
        &&& connected(b, w, h, conn, seeds2[k].0, seeds2[k].1, px, py)
    } by {
        lemma_idx_bounds(px, py, w, h);
        let i = idx(px, py, w);
        if on_b[i] != 0 && on_a[i] == 0 {
            assert(cleared(on_b, on_a, w, px, py));
            assert(seeds2[kk] == (x, y));
            if i < idx(xs, ys, w) {
                assert(on_b[i] == 0);
            }
        } else {
            assert(lab2[i] == lab[i]);
            let k = lab[i];
            assert(0 <= k < cs.len());
            assert(seeds2[k] == seeds[k]);
        }
    }
    assert forall|k: int| 0 <= k < cs2.len() implies #[trigger] cs2[k].pixel_count == count_label(lab2, k) by {
        if k < cs.len() {
            assert forall|i: int| 0 <= i < lab.len() implies (lab[i] == k <==> lab2[i] == k) by {
                assert(-1 <= lab[i] < cs.len());
                if on_b[i] != 0 {
                    assert(lab[i] == -1);
                }
            }
            lemma_count_label_same(lab, lab2, k);
            assert(cs2[k] == cs[k]);
        } else {
            assert forall|i: int| 0 <= i < lab2.len() implies (lab2[i] == kk <==> (on_b[i] != 0 && on_a[i] == 0)) by {
                assert(-1 <= lab[i] < cs.len());
            }
            lemma_count_label_cleared(lab2, on_b, on_a, kk);
        }
    }
    assert forall|k: int| 0 <= k < cs2.len() implies is_bounding_box(#[trigger] cs2[k].bb, w, h, label_set(lab2, w, k)) by {
        if k < cs.len() {
            assert(cs2[k] == cs[k]);
            assert forall|px: int, py: int| #![trigger label_set(lab, w, k)(px, py)] #![trigger label_set(lab2, w, k)(px, py)]
                in_grid(px, py, w, h) implies label_set(lab, w, k)(px, py) == label_set(lab2, w, k)(px, py) by {
                lemma_idx_bounds(px, py, w, h);
                let i = idx(px, py, w);
                assert(-1 <= lab[i] < cs.len());
                if on_b[i] != 0 {
                    assert(lab[i] == -1);
                }
            }
            lemma_bounding_box_same(cs[k].bb, w, h, label_set(lab, w, k), label_set(lab2, w, k));
        } else {
            assert forall|px: int, py: int| #![trigger cleared_set(on_b, on_a, w)(px, py)] #![trigger label_set(lab2, w, kk)(px, py)]
                in_grid(px, py, w, h) implies cleared_set(on_b, on_a, w)(px, py) == label_set(lab2, w, kk)(px, py) by {
                lemma_idx_bounds(px, py, w, h);
                let i = idx(px, py, w);
                assert(-1 <= lab[i] < cs.len());
            }
            lemma_bounding_box_same(c.bb, w, h, cleared_set(on_b, on_a, w), label_set(lab2, w, kk));
        }
    }
    assert forall|i: int| 0 <= i < idx(x, y, w) implies #[trigger] on_a[i] == 0 by {
        if i < idx(xs, ys, w) {
            assert(on_b[i] == 0);
        } else {
            assert(on_b[i] == 0);
        }
        if on_a[i] != 0 {
            assert(on_b[i] != 0);
        }
    }
    assert forall|k: int| 0 <= k < cs2.len() implies idx(#[trigger] seeds2[k].0, seeds2[k].1, w) <= idx(x, y, w) by {
        if k < cs.len() {
            assert(seeds2[k] == seeds[k]);
        }
    }
    assert(on_b[idx(x, y, w)] != 0 && on_a[idx(x, y, w)] == 0);
    lemma_labels_closed_add(lab, lab2, b, on_b, on_a, w, h, conn, kk);
    lab2
}

/// Components of the binary image with their ink pixel counts: for 4- or 8-connectivity, the list of components in
/// raster order of their first pixel, each with its bounding box and ink
/// pixel count (ink is the byte `0`).
#[verifier::spinoff_prover]
#[verifier::rlimit(40)]
pub fn conn_comp_areas(binary: &[u8], w: usize, h: usize, connectivity: u32) -> (r: Vec<ConnComp>)
    requires
        connectivity == 4 || connectivity == 8,
        binary@.len() == w * h,
        w * h <= i32::MAX,
        w + 2 <= i32::MAX,
        h + 2 <= i32::MAX,
    ensures
        is_components(r@, binary@, w as int, h as int, connectivity as int),
{
    let ghost b = binary@;
    let ghost wg = w as int;
    let ghost hg = h as int;
    let ghost conn = connectivity as int;
    if w == 0 || h == 0 {
        let r: Vec<ConnComp> = Vec::new();
        proof {
            assert(wg * hg == 0) by (nonlinear_arith)
                requires
                    wg == 0 || hg == 0,
            ;
            let lab = Seq::<int>::empty();
            let seeds = Seq::<(int, int)>::empty();
            assert(labeling_ok(lab, seeds, b, wg, hg, conn, r@));
        }
        return r;
    }
    let wi = w as i32;
    let hi = h as i32;
    let n = binary.len();
    // Working copy: 1 = ON, 0 = background or erased.
    let mut on: Vec<u8> = Vec::with_capacity(n);
    let mut i: usize = 0;
    while i < n
        invariant
            n == binary@.len(),
            i <= n,
            on@.len() == i,
            forall|j: int| 0 <= j < i ==> (#[trigger] on@[j] != 0 <==> binary@[j] == 0),
        decreases n - i,
    {
        on.push(if binary[i] == 0 { 1u8 } else { 0u8 });
        i += 1;
    }
    let ghost lab0 = Seq::new(n as nat, |j: int| -1int);
    proof {
        let e = Seq::<(int, int)>::empty();
        let ce = Seq::<ConnComp>::empty();
        assert(lab0.len() == wg * hg);
        assert forall|i: int| 0 <= i < wg * hg implies -1 <= #[trigger] lab0[i] < ce.len() && (lab0[i] >= 0 ==> b[i] == 0) by {}
        assert forall|x: int, y: int| in_grid(x, y, wg, hg) && 0 <= #[trigger] lab0[idx(x, y, wg)] implies false by {
            lemma_idx_bounds(x, y, wg, hg);
        }
        assert(partial_labeling(lab0, e, b, wg, hg, conn, ce));
    }
    // An image without ink has no component.
    let mut j: usize = 0;
    let mut any_on = false;
    while j < n
        invariant
            n == on@.len(),
            j <= n,
            any_on == (exists|k: int| 0 <= k < j && #[trigger] on@[k] != 0),
        decreases n - j,
    {
        if on[j] != 0 {
            any_on = true;
        }
        j += 1;
    }
    if !any_on {
        let r: Vec<ConnComp> = Vec::new();
        proof {
            let seeds = Seq::<(int, int)>::empty();
            assert forall|k: int| 0 <= k < wg * hg && #[trigger] b[k] == 0 implies lab0[k] >= 0 by {
                assert(on@[k] != 0);
            }
            assert(labeling_ok(lab0, seeds, b, wg, hg, conn, r@));
        }
        return r;
    }
    let d: i32 = if connectivity == 4 { 0 } else { 1 };
    let mut comps: Vec<ConnComp> = Vec::new();
    let mut stack: Vec<FillSeg> = Vec::new();
    let mut xstart: i32 = 0;
    let mut ystart: i32 = 0;
    let ghost mut lab = lab0;
    let ghost mut seeds = Seq::<(int, int)>::empty();
    proof {
        assert(areas_inv(lab, seeds, b, wg, hg, conn_of(d as int), comps@, on@, 0, 0));
    }
    loop
        invariant
            b == binary@,
            wg == w as int,
            hg == h as int,
            wi as int == wg,
            hi as int == hg,
            1 <= wg,
            1 <= hg,
            wg * hg <= i32::MAX,
            wg + 2 <= i32::MAX,
            hg + 2 <= i32::MAX,
            d == 0 || d == 1,
            conn == connectivity as int,
            conn == conn_of(d as int),
            stack@.len() == 0,
            areas_inv(lab, seeds, b, wg, hg, conn, comps@, on@, xstart as int, ystart as int),
        ensures
            areas_inv(lab, seeds, b, wg, hg, conn, comps@, on@, xstart as int, ystart as int),
            forall|i: int| 0 <= i < on@.len() ==> on@[i] == 0,
        decreases count_nonzero(on@),
    {
        let next = next_on_pixel_in_raster(&on, wi, hi, xstart, ystart);
        if next.is_none() {
            proof {
                assert forall|i: int| 0 <= i < on@.len() implies on@[i] == 0 by {
                    if i < idx(xstart as int, ystart as int, wg) {
                        assert(on@[i] == 0);
                    }
                }
            }
            break;
        }
        let (x, y) = next.unwrap();
        let ghost on_b = on@;
        proof {
            lemma_count_nonzero_le_len(on@);
            assert forall|i: int| 0 <= i < on_b.len() && #[trigger] on_b[i] != 0 implies b[i] == 0 by {}
            assert forall|i: int| 0 <= i < idx(x as int, y as int, wg) implies on_b[i] == 0 by {
                if i < idx(xstart as int, ystart as int, wg) {
                    assert(on_b[i] == 0);
                }
            }
        }
        let (bb, pixel_count) = if connectivity == 4 {
            seedfill4_bb(&mut on, wi, hi, x, y, &mut stack, Ghost(b))
        } else {
            seedfill8_bb(&mut on, wi, hi, x, y, &mut stack, Ghost(b))
        };
        let c = ConnComp { bb, pixel_count };
        proof {
            lab = lemma_add_component(lab, seeds, b, wg, hg, d as int, comps@, on_b, on@, xstart as int, ystart as int, x as int,
                y as int, c);
            seeds = seeds.push((x as int, y as int));
        }
        comps.push(c);
        xstart = x;
        ystart = y;
    }
    proof {
        assert forall|i: int| 0 <= i < wg * hg && #[trigger] b[i] == 0 implies lab[i] >= 0 by {
            assert(on@[i] == 0);
        }
        assert(labeling_ok(lab, seeds, b, wg, hg, conn, comps@));
    }
    comps
}

/// Bounding boxes of the 4- or 8-connected components of a binary image,
/// in raster order of each component's first pixel:
/// the boxes of [`conn_comp_areas`].
pub fn conn_comp_bb(binary: &[u8], w: usize, h: usize, connectivity: u32) -> (r: Vec<ConnCompBox>)
    requires
        connectivity == 4 || connectivity == 8,
        binary@.len() == w * h,
        w * h <= i32::MAX,
        w + 2 <= i32::MAX,
        h + 2 <= i32::MAX,
    ensures
        exists|cs: Seq<ConnComp>| is_components(cs, binary@, w as int, h as int, connectivity as int) && r@ == boxes_of(cs),
{
    let comps = conn_comp_areas(binary, w, h, connectivity);
    let mut boxes: Vec<ConnCompBox> = Vec::with_capacity(comps.len());
    let mut k: usize = 0;
    while k < comps.len()
        invariant
            k <= comps@.len(),
            boxes@.len() == k,
            forall|j: int| 0 <= j < k ==> boxes@[j] == #[trigger] comps@[j].bb,
        decreases comps@.len() - k,
    {
        boxes.push(comps[k].bb);
        k += 1;
    }
    proof {
        assert(boxes@ == boxes_of(comps@));
    }
    boxes
}

} // verus!
