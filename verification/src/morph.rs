//! Binary brick morphology (dilation, erosion, opening, closing):
//! rectangular-window OR (dilation) and
//! AND (erosion, with the asymmetric border clear), done separably when both
//! brick sides exceed 1.
use vstd::prelude::*;
use crate::grid::{idx, lemma_idx_bounds, lemma_idx_decompose, lemma_idx_split};

verus! {

/// `on[(x, y)]`, with every position outside the `w × h` grid reading OFF.
pub open spec fn on_at(on: Seq<bool>, w: int, h: int, x: int, y: int) -> bool {
    0 <= x < w && 0 <= y < h && on[idx(x, y, w)]
}

/// Whether sel cell `(i, j)` of a sel with origin `(cy, cx)` reaches an ON
/// source pixel when dilating at `(x, y)`.
pub open spec fn dilate_hit(on: Seq<bool>, w: int, h: int, cy: int, cx: int, x: int, y: int, i: int, j: int) -> bool {
    on_at(on, w, h, x - (j - cx), y - (i - cy))
}

/// Dilated pixel `(x, y)`: some cell of the `sy × sx` sel reaches ON.
pub open spec fn dilate_at(on: Seq<bool>, w: int, h: int, sy: int, sx: int, cy: int, cx: int, x: int, y: int) -> bool {
    exists|i: int, j: int| 0 <= i < sy && 0 <= j < sx && #[trigger] dilate_hit(on, w, h, cy, cx, x, y, i, j)
}

/// Whether sel cell `(i, j)` is satisfied when eroding at `(x, y)`: the
/// shifted position is outside the grid (no constraint) or ON.
pub open spec fn erode_ok(on: Seq<bool>, w: int, h: int, cy: int, cx: int, x: int, y: int, i: int, j: int) -> bool {
    let xx = x + (j - cx);
    let yy = y + (i - cy);
    !(0 <= xx < w && 0 <= yy < h) || on[idx(xx, yy, w)]
}

/// The asymmetric border strips an erosion clears: `cx` columns on the left,
/// `sx-1-cx` on the right, `cy` rows on top, `sy-1-cy` at the bottom.
pub open spec fn in_erode_border(w: int, h: int, sy: int, sx: int, cy: int, cx: int, x: int, y: int) -> bool {
    x < cx || x >= w - (sx - 1 - cx) || y < cy || y >= h - (sy - 1 - cy)
}

/// Eroded pixel `(x, y)`: outside the border strips and every sel cell
/// satisfied.
pub open spec fn erode_at(on: Seq<bool>, w: int, h: int, sy: int, sx: int, cy: int, cx: int, x: int, y: int) -> bool {
    !in_erode_border(w, h, sy, sx, cy, cx, x, y) && forall|i: int, j: int|
        0 <= i < sy && 0 <= j < sx ==> #[trigger] erode_ok(on, w, h, cy, cx, x, y, i, j)
}

/// Dilation of a `w × h` boolean grid by an all-hit `sy × sx` sel with
/// origin `(cy, cx)`.
pub open spec fn dilate_rect_spec(on: Seq<bool>, w: int, h: int, sy: int, sx: int, cy: int, cx: int) -> Seq<bool> {
    Seq::new((h * w) as nat, |k: int| dilate_at(on, w, h, sy, sx, cy, cx, k % w, k / w))
}

/// Erosion (with border clear) of a `w × h` boolean grid by an all-hit
/// `sy × sx` sel with origin `(cy, cx)`.
pub open spec fn erode_rect_spec(on: Seq<bool>, w: int, h: int, sy: int, sx: int, cy: int, cx: int) -> Seq<bool> {
    Seq::new((h * w) as nat, |k: int| erode_at(on, w, h, sy, sx, cy, cx, k % w, k / w))
}

/// Brick dilation: identity for `1 × 1`, one brick sel with origin at its
/// centre when a side is 1, otherwise horizontal then vertical.
pub open spec fn dilate_brick_spec(on: Seq<bool>, w: int, h: int, hs: int, vs: int) -> Seq<bool> {
    if hs == 1 && vs == 1 {
        on
    } else if hs == 1 || vs == 1 {
        dilate_rect_spec(on, w, h, vs, hs, vs / 2, hs / 2)
    } else {
        dilate_rect_spec(dilate_rect_spec(on, w, h, 1, hs, 0, hs / 2), w, h, vs, 1, vs / 2, 0)
    }
}

/// Brick erosion, with the same shortcuts and separable order as
/// [`dilate_brick_spec`].
pub open spec fn erode_brick_spec(on: Seq<bool>, w: int, h: int, hs: int, vs: int) -> Seq<bool> {
    if hs == 1 && vs == 1 {
        on
    } else if hs == 1 || vs == 1 {
        erode_rect_spec(on, w, h, vs, hs, vs / 2, hs / 2)
    } else {
        erode_rect_spec(erode_rect_spec(on, w, h, 1, hs, 0, hs / 2), w, h, vs, 1, vs / 2, 0)
    }
}

/// Ink (`0`) bytes as `true`.
pub open spec fn to_on_spec(b: Seq<u8>) -> Seq<bool> {
    Seq::new(b.len(), |i: int| b[i] == 0)
}

/// `true` as the ink byte `0`, `false` as `255`.
pub open spec fn from_on_spec(on: Seq<bool>) -> Seq<u8> {
    Seq::new(on.len(), |i: int| if on[i] { 0u8 } else { 255u8 })
}

/// Size limits under which every coordinate computation stays in `i32`.
pub open spec fn brick_fits(w: int, h: int, hs: int, vs: int) -> bool {
    &&& hs >= 1
    &&& vs >= 1
    &&& w + hs <= i32::MAX
    &&& h + vs <= i32::MAX
    &&& w * h <= i32::MAX
}

/// Argument conditions of the rectangular kernels.
pub open spec fn rect_args(len: int, w: int, h: int, sy: int, sx: int, cy: int, cx: int) -> bool {
    &&& 0 <= w
    &&& 0 <= h
    &&& len == w * h
    &&& w * h <= i32::MAX
    &&& 1 <= sy
    &&& 1 <= sx
    &&& 0 <= cy < sy
    &&& 0 <= cx < sx
    &&& w + sx <= i32::MAX
    &&& h + sy <= i32::MAX
}

/// Grid arguments of the rectangular specs (no machine limits).
pub open spec fn rect_shape(len: int, w: int, h: int, sy: int, sx: int, cy: int, cx: int) -> bool {
    &&& 0 <= w
    &&& 0 <= h
    &&& len == h * w
    &&& 0 <= cy < sy
    &&& 0 <= cx < sx
}

/// Dilating an erosion by the same rectangle never adds a pixel.
proof fn lemma_dilate_erode_rect_subset(on: Seq<bool>, w: int, h: int, sy: int, sx: int, cy: int, cx: int, k: int)
    requires
        rect_shape(on.len() as int, w, h, sy, sx, cy, cx),
        0 <= k < h * w,
        dilate_rect_spec(erode_rect_spec(on, w, h, sy, sx, cy, cx), w, h, sy, sx, cy, cx)[k],
    ensures
        on[k],
{
    let e = erode_rect_spec(on, w, h, sy, sx, cy, cx);
    assert(h * w == w * h) by (nonlinear_arith);
    lemma_idx_split(k, w, h);
    let x = k % w;
    let y = k / w;
    assert(dilate_at(e, w, h, sy, sx, cy, cx, x, y));
    let (i, j) = choose|i: int, j: int| 0 <= i < sy && 0 <= j < sx && #[trigger] dilate_hit(e, w, h, cy, cx, x, y, i, j);
    let px = x - (j - cx);
    let py = y - (i - cy);
    assert(on_at(e, w, h, px, py));
    lemma_idx_bounds(px, py, w, h);
    lemma_idx_decompose(px, py, w);
    assert(erode_at(on, w, h, sy, sx, cy, cx, px, py));
    assert(erode_ok(on, w, h, cy, cx, px, py, i, j));
    assert(px + (j - cx) == x && py + (i - cy) == y);
}

/// Dilation by a rectangle is monotone.
proof fn lemma_dilate_rect_monotone(a: Seq<bool>, b: Seq<bool>, w: int, h: int, sy: int, sx: int, cy: int, cx: int, k: int)
    requires
        rect_shape(a.len() as int, w, h, sy, sx, cy, cx),
        b.len() == a.len(),
        forall|m: int| 0 <= m < a.len() && #[trigger] a[m] ==> b[m],
        0 <= k < h * w,
        dilate_rect_spec(a, w, h, sy, sx, cy, cx)[k],
    ensures
        dilate_rect_spec(b, w, h, sy, sx, cy, cx)[k],
{
    assert(h * w == w * h) by (nonlinear_arith);
    lemma_idx_split(k, w, h);
    let x = k % w;
    let y = k / w;
    let (i, j) = choose|i: int, j: int| 0 <= i < sy && 0 <= j < sx && #[trigger] dilate_hit(a, w, h, cy, cx, x, y, i, j);
    let px = x - (j - cx);
    let py = y - (i - cy);
    lemma_idx_bounds(px, py, w, h);
    assert(a[idx(px, py, w)]);
    assert(dilate_hit(b, w, h, cy, cx, x, y, i, j));
}

/// A horizontal dilation of a vertical erosion lies inside the vertical
/// erosion of the horizontal dilation.
proof fn lemma_hdilate_verode_commute(a: Seq<bool>, w: int, h: int, hs: int, vs: int, k: int)
    requires
        rect_shape(a.len() as int, w, h, 1, hs, 0, hs / 2),
        rect_shape(a.len() as int, w, h, vs, 1, vs / 2, 0),
        0 <= k < h * w,
        dilate_rect_spec(erode_rect_spec(a, w, h, vs, 1, vs / 2, 0), w, h, 1, hs, 0, hs / 2)[k],
    ensures
        erode_rect_spec(dilate_rect_spec(a, w, h, 1, hs, 0, hs / 2), w, h, vs, 1, vs / 2, 0)[k],
{
    let cx = hs / 2;
    let cy = vs / 2;
    let e = erode_rect_spec(a, w, h, vs, 1, cy, 0);
    let d = dilate_rect_spec(a, w, h, 1, hs, 0, cx);
    assert(h * w == w * h) by (nonlinear_arith);
    lemma_idx_split(k, w, h);
    let x = k % w;
    let y = k / w;
    let (i, j) = choose|i: int, j: int| 0 <= i < 1 && 0 <= j < hs && #[trigger] dilate_hit(e, w, h, 0, cx, x, y, i, j);
    assert(i == 0);
    let px = x - (j - cx);
    lemma_idx_bounds(px, y, w, h);
    lemma_idx_decompose(px, y, w);
    assert(erode_at(a, w, h, vs, 1, cy, 0, px, y));
    assert forall|i2: int, j2: int| 0 <= i2 < vs && 0 <= j2 < 1 implies #[trigger] erode_ok(d, w, h, cy, 0, x, y, i2, j2) by {
        assert(j2 == 0);
        let yy = y + (i2 - cy);
        if 0 <= x < w && 0 <= yy < h {
            assert(erode_ok(a, w, h, cy, 0, px, y, i2, 0));
            lemma_idx_bounds(px, yy, w, h);
            lemma_idx_bounds(x, yy, w, h);
            lemma_idx_decompose(x, yy, w);
            assert(dilate_hit(a, w, h, 0, cx, x, yy, 0, j));
            assert(dilate_at(a, w, h, 1, hs, 0, cx, x, yy));
        }
    }
}

/// Law: opening never adds ink — every ink pixel of an opened image is ink
/// in the source image.
pub proof fn lemma_open_brick_anti_extensive(b: Seq<u8>, w: int, h: int, hs: int, vs: int)
    requires
        0 <= w,
        0 <= h,
        b.len() == w * h,
        hs >= 1,
        vs >= 1,
    ensures
        forall|k: int|
            0 <= k < w * h && #[trigger] from_on_spec(
                dilate_brick_spec(erode_brick_spec(to_on_spec(b), w, h, hs, vs), w, h, hs, vs),
            )[k] == 0 ==> b[k] == 0,
{
    let x = to_on_spec(b);
    assert(h * w == w * h) by (nonlinear_arith);
    let r = dilate_brick_spec(erode_brick_spec(x, w, h, hs, vs), w, h, hs, vs);
    assert forall|k: int| 0 <= k < w * h && r[k] implies x[k] by {
        if hs == 1 && vs == 1 {
        } else if hs == 1 || vs == 1 {
            lemma_dilate_erode_rect_subset(x, w, h, vs, hs, vs / 2, hs / 2, k);
        } else {
            let a = erode_rect_spec(x, w, h, 1, hs, 0, hs / 2);
            let bb = erode_rect_spec(a, w, h, vs, 1, vs / 2, 0);
            let c = dilate_rect_spec(bb, w, h, 1, hs, 0, hs / 2);
            let c2 = erode_rect_spec(dilate_rect_spec(a, w, h, 1, hs, 0, hs / 2), w, h, vs, 1, vs / 2, 0);
            assert forall|m: int| 0 <= m < c.len() && #[trigger] c[m] implies c2[m] by {
                lemma_hdilate_verode_commute(a, w, h, hs, vs, m);
            }
            lemma_dilate_rect_monotone(c, c2, w, h, vs, 1, vs / 2, 0, k);
            lemma_dilate_erode_rect_subset(dilate_rect_spec(a, w, h, 1, hs, 0, hs / 2), w, h, vs, 1, vs / 2, 0, k);
            lemma_dilate_erode_rect_subset(x, w, h, 1, hs, 0, hs / 2, k);
        }
    }
    assert forall|k: int| 0 <= k < w * h && #[trigger] from_on_spec(r)[k] == 0 implies b[k] == 0 by {
        assert(r[k]);
    }
}

/// A rectangular dilation keeps every ON pixel: the sel's origin cell
/// reaches the pixel itself.
proof fn lemma_dilate_rect_extensive(on: Seq<bool>, w: int, h: int, sy: int, sx: int, cy: int, cx: int, k: int)
    requires
        rect_shape(on.len() as int, w, h, sy, sx, cy, cx),
        0 <= k < h * w,
        on[k],
    ensures
        dilate_rect_spec(on, w, h, sy, sx, cy, cx)[k],
{
    assert(h * w == w * h) by (nonlinear_arith);
    lemma_idx_split(k, w, h);
    let x = k % w;
    let y = k / w;
    assert(dilate_hit(on, w, h, cy, cx, x, y, cy, cx));
}

/// A rectangular erosion only keeps ON pixels: the sel's origin cell
/// checks the pixel itself.
proof fn lemma_erode_rect_anti_extensive(on: Seq<bool>, w: int, h: int, sy: int, sx: int, cy: int, cx: int, k: int)
    requires
        rect_shape(on.len() as int, w, h, sy, sx, cy, cx),
        0 <= k < h * w,
        erode_rect_spec(on, w, h, sy, sx, cy, cx)[k],
    ensures
        on[k],
{
    assert(h * w == w * h) by (nonlinear_arith);
    lemma_idx_split(k, w, h);
    let x = k % w;
    let y = k / w;
    assert(erode_ok(on, w, h, cy, cx, x, y, cy, cx));
}

/// Law: dilating by a one-row brick of width `hs` makes pixel `(x, y)` ink
/// exactly when some source pixel of row `y` in columns
/// `x - (hs - 1 - hs/2) ..= x + hs/2` is ink (the brick's origin is its
/// column `hs/2`).
pub proof fn lemma_dilate_row_window(b: Seq<u8>, w: int, h: int, hs: int, x: int, y: int)
    requires
        b.len() == w * h,
        hs >= 1,
        0 <= x < w,
        0 <= y < h,
    ensures
        from_on_spec(dilate_brick_spec(to_on_spec(b), w, h, hs, 1))[y * w + x] == 0 <==> exists|xx: int|
            x - (hs - 1 - hs / 2) <= xx <= x + hs / 2 && 0 <= xx < w && #[trigger] b[y * w + xx] == 0,
{
    let on = to_on_spec(b);
    lemma_idx_bounds(x, y, w, h);
    lemma_idx_decompose(x, y, w);
    assert(h * w == w * h) by (nonlinear_arith);
    let k = y * w + x;
    if hs > 1 {
        let cx = hs / 2;
        if dilate_at(on, w, h, 1, hs, 0, cx, x, y) {
            let (i, j) = choose|i: int, j: int| 0 <= i < 1 && 0 <= j < hs && #[trigger] dilate_hit(on, w, h, 0, cx, x, y, i, j);
            let xx = x - (j - cx);
            lemma_idx_bounds(xx, y, w, h);
            assert(b[y * w + xx] == 0);
        }
        if exists|xx: int| x - (hs - 1 - hs / 2) <= xx <= x + hs / 2 && 0 <= xx < w && #[trigger] b[y * w + xx] == 0 {
            let xx = choose|xx: int| x - (hs - 1 - hs / 2) <= xx <= x + hs / 2 && 0 <= xx < w && #[trigger] b[y * w + xx] == 0;
            lemma_idx_bounds(xx, y, w, h);
            assert(dilate_hit(on, w, h, 0, cx, x, y, 0, x - xx + cx));
        }
    } else {
        if b[k] == 0 {
            assert(b[y * w + x] == 0);
        }
    }
}

/// Law: dilating by a one-column brick of height `vs` makes pixel `(x, y)`
/// ink exactly when some source pixel of column `x` in rows
/// `y - (vs - 1 - vs/2) ..= y + vs/2` is ink (the brick's origin is its row
/// `vs/2`).
pub proof fn lemma_dilate_column_window(b: Seq<u8>, w: int, h: int, vs: int, x: int, y: int)
    requires
        b.len() == w * h,
        vs >= 1,
        0 <= x < w,
        0 <= y < h,
    ensures
        from_on_spec(dilate_brick_spec(to_on_spec(b), w, h, 1, vs))[y * w + x] == 0 <==> exists|yy: int|
            y - (vs - 1 - vs / 2) <= yy <= y + vs / 2 && 0 <= yy < h && #[trigger] b[yy * w + x] == 0,
{
    let on = to_on_spec(b);
    lemma_idx_bounds(x, y, w, h);
    lemma_idx_decompose(x, y, w);
    assert(h * w == w * h) by (nonlinear_arith);
    let k = y * w + x;
    if vs > 1 {
        let cy = vs / 2;
        if dilate_at(on, w, h, vs, 1, cy, 0, x, y) {
            let (i, j) = choose|i: int, j: int| 0 <= i < vs && 0 <= j < 1 && #[trigger] dilate_hit(on, w, h, cy, 0, x, y, i, j);
            let yy = y - (i - cy);
            lemma_idx_bounds(x, yy, w, h);
            assert(b[yy * w + x] == 0);
        }
        if exists|yy: int| y - (vs - 1 - vs / 2) <= yy <= y + vs / 2 && 0 <= yy < h && #[trigger] b[yy * w + x] == 0 {
            let yy = choose|yy: int| y - (vs - 1 - vs / 2) <= yy <= y + vs / 2 && 0 <= yy < h && #[trigger] b[yy * w + x] == 0;
            lemma_idx_bounds(x, yy, w, h);
            assert(dilate_hit(on, w, h, cy, 0, x, y, y - yy + cy, 0));
        }
    } else {
        if b[k] == 0 {
            assert(b[y * w + x] == 0);
        }
    }
}

/// Law: eroding by a one-row brick of width `hs` makes pixel `(x, y)` ink
/// exactly when it lies outside the cleared border — at least `hs/2`
/// columns from the left edge and `hs - 1 - hs/2` from the right — and every
/// source pixel of row `y` in columns `x - hs/2 ..= x + (hs - 1 - hs/2)` is
/// ink.
pub proof fn lemma_erode_row_window(b: Seq<u8>, w: int, h: int, hs: int, x: int, y: int)
    requires
        b.len() == w * h,
        hs >= 1,
        0 <= x < w,
        0 <= y < h,
    ensures
        from_on_spec(erode_brick_spec(to_on_spec(b), w, h, hs, 1))[y * w + x] == 0 <==> (hs / 2 <= x < w - (hs - 1 - hs / 2)
            && forall|xx: int| x - hs / 2 <= xx <= x + (hs - 1 - hs / 2) ==> #[trigger] b[y * w + xx] == 0),
{
    let on = to_on_spec(b);
    lemma_idx_bounds(x, y, w, h);
    lemma_idx_decompose(x, y, w);
    assert(h * w == w * h) by (nonlinear_arith);
    let cx = hs / 2;
    if hs > 1 {
        if erode_at(on, w, h, 1, hs, 0, cx, x, y) {
            assert forall|xx: int| x - hs / 2 <= xx <= x + (hs - 1 - hs / 2) implies #[trigger] b[y * w + xx] == 0 by {
                assert(erode_ok(on, w, h, 0, cx, x, y, 0, xx - x + cx));
                lemma_idx_bounds(xx, y, w, h);
            }
        }
        if hs / 2 <= x < w - (hs - 1 - hs / 2) && forall|xx: int| x - hs / 2 <= xx <= x + (hs - 1 - hs / 2) ==> #[trigger] b[y * w + xx]
            == 0 {
            assert forall|i: int, j: int| 0 <= i < 1 && 0 <= j < hs implies #[trigger] erode_ok(on, w, h, 0, cx, x, y, i, j) by {
                let xx = x + (j - cx);
                assert(b[y * w + xx] == 0);
                lemma_idx_bounds(xx, y, w, h);
            }
        }
    } else {
        let k = y * w + x;
        if b[k] == 0 {
            assert(b[y * w + x] == 0);
        }
        if forall|xx: int| x - hs / 2 <= xx <= x + (hs - 1 - hs / 2) ==> #[trigger] b[y * w + xx] == 0 {
            assert(b[y * w + x] == 0);
        }
    }
}

/// Law: eroding by a one-column brick of height `vs` makes pixel `(x, y)`
/// ink exactly when it lies outside the cleared border — at least `vs/2`
/// rows from the top and `vs - 1 - vs/2` from the bottom — and every source
/// pixel of column `x` in rows `y - vs/2 ..= y + (vs - 1 - vs/2)` is ink.
pub proof fn lemma_erode_column_window(b: Seq<u8>, w: int, h: int, vs: int, x: int, y: int)
    requires
        b.len() == w * h,
        vs >= 1,
        0 <= x < w,
        0 <= y < h,
    ensures
        from_on_spec(erode_brick_spec(to_on_spec(b), w, h, 1, vs))[y * w + x] == 0 <==> (vs / 2 <= y < h - (vs - 1 - vs / 2)
            && forall|yy: int| y - vs / 2 <= yy <= y + (vs - 1 - vs / 2) ==> #[trigger] b[yy * w + x] == 0),
{
    let on = to_on_spec(b);
    lemma_idx_bounds(x, y, w, h);
    lemma_idx_decompose(x, y, w);
    assert(h * w == w * h) by (nonlinear_arith);
    let cy = vs / 2;
    if vs > 1 {
        if erode_at(on, w, h, vs, 1, cy, 0, x, y) {
            assert forall|yy: int| y - vs / 2 <= yy <= y + (vs - 1 - vs / 2) implies #[trigger] b[yy * w + x] == 0 by {
                assert(erode_ok(on, w, h, cy, 0, x, y, yy - y + cy, 0));
                lemma_idx_bounds(x, yy, w, h);
            }
        }
        if vs / 2 <= y < h - (vs - 1 - vs / 2) && forall|yy: int| y - vs / 2 <= yy <= y + (vs - 1 - vs / 2) ==> #[trigger] b[yy * w + x]
            == 0 {
            assert forall|i: int, j: int| 0 <= i < vs && 0 <= j < 1 implies #[trigger] erode_ok(on, w, h, cy, 0, x, y, i, j) by {
                let yy = y + (i - cy);
                assert(b[yy * w + x] == 0);
                lemma_idx_bounds(x, yy, w, h);
            }
        }
    } else {
        let k = y * w + x;
        if b[k] == 0 {
            assert(b[y * w + x] == 0);
        }
        if forall|yy: int| y - vs / 2 <= yy <= y + (vs - 1 - vs / 2) ==> #[trigger] b[yy * w + x] == 0 {
            assert(b[y * w + x] == 0);
        }
    }
}

/// Law: dilation never removes ink — every ink pixel of the source is ink
/// in the dilated image.
pub proof fn lemma_dilate_brick_extensive(b: Seq<u8>, w: int, h: int, hs: int, vs: int)
    requires
        0 <= w,
        0 <= h,
        b.len() == w * h,
        hs >= 1,
        vs >= 1,
    ensures
        forall|k: int| 0 <= k < w * h && b[k] == 0 ==> #[trigger] from_on_spec(dilate_brick_spec(to_on_spec(b), w, h, hs, vs))[k] == 0,
{
    let x = to_on_spec(b);
    assert(h * w == w * h) by (nonlinear_arith);
    let r = dilate_brick_spec(x, w, h, hs, vs);
    assert forall|k: int| 0 <= k < w * h && b[k] == 0 implies #[trigger] from_on_spec(r)[k] == 0 by {
        assert(x[k]);
        if hs == 1 && vs == 1 {
        } else if hs == 1 || vs == 1 {
            lemma_dilate_rect_extensive(x, w, h, vs, hs, vs / 2, hs / 2, k);
        } else {
            lemma_dilate_rect_extensive(x, w, h, 1, hs, 0, hs / 2, k);
            lemma_dilate_rect_extensive(dilate_rect_spec(x, w, h, 1, hs, 0, hs / 2), w, h, vs, 1, vs / 2, 0, k);
        }
    }
}

/// Law: erosion never adds ink — every ink pixel of the eroded image is ink
/// in the source.
pub proof fn lemma_erode_brick_anti_extensive(b: Seq<u8>, w: int, h: int, hs: int, vs: int)
    requires
        0 <= w,
        0 <= h,
        b.len() == w * h,
        hs >= 1,
        vs >= 1,
    ensures
        forall|k: int| 0 <= k < w * h && #[trigger] from_on_spec(erode_brick_spec(to_on_spec(b), w, h, hs, vs))[k] == 0 ==> b[k] == 0,
{
    let x = to_on_spec(b);
    assert(h * w == w * h) by (nonlinear_arith);
    let r = erode_brick_spec(x, w, h, hs, vs);
    assert forall|k: int| 0 <= k < w * h && #[trigger] from_on_spec(r)[k] == 0 implies b[k] == 0 by {
        assert(r[k]);
        if hs == 1 && vs == 1 {
        } else if hs == 1 || vs == 1 {
            lemma_erode_rect_anti_extensive(x, w, h, vs, hs, vs / 2, hs / 2, k);
        } else {
            let a = erode_rect_spec(x, w, h, 1, hs, 0, hs / 2);
            lemma_erode_rect_anti_extensive(a, w, h, vs, 1, vs / 2, 0, k);
            lemma_erode_rect_anti_extensive(x, w, h, 1, hs, 0, hs / 2, k);
        }
    }
}

/// `on[(x, y)]` with out-of-grid positions reading OFF.
fn get_or_false(on: &[bool], w: i32, h: i32, x: i32, y: i32) -> (r: bool)
    requires
        on@.len() == w * h,
        w * h <= i32::MAX,
        0 <= w,
        0 <= h,
    ensures
        r == on_at(on@, w as int, h as int, x as int, y as int),
{
    if x >= 0 && x < w && y >= 0 && y < h {
        proof {
            lemma_idx_bounds(x as int, y as int, w as int, h as int);
        }
        on[(y * w + x) as usize]
    } else {
        false
    }
}

/// Whether any cell of the `sy × sx` sel reaches an ON pixel from `(x, y)`.
fn dilate_search(on: &[bool], w: i32, h: i32, sy: i32, sx: i32, cy: i32, cx: i32, x: i32, y: i32) -> (hit: bool)
    requires
        rect_args(on@.len() as int, w as int, h as int, sy as int, sx as int, cy as int, cx as int),
        0 <= x < w,
        0 <= y < h,
    ensures
        hit == dilate_at(on@, w as int, h as int, sy as int, sx as int, cy as int, cx as int, x as int, y as int),
{
    let mut hit = false;
    let mut i: i32 = 0;
    while i < sy && !hit
        invariant
            rect_args(on@.len() as int, w as int, h as int, sy as int, sx as int, cy as int, cx as int),
            0 <= x < w,
            0 <= y < h,
            0 <= i <= sy,
            hit ==> dilate_at(on@, w as int, h as int, sy as int, sx as int, cy as int, cx as int, x as int, y as int),
            !hit ==> forall|a: int, b: int| 0 <= a < i && 0 <= b < sx ==> !#[trigger] dilate_hit(on@, w as int, h as int, cy as int, cx as int, x as int, y as int, a, b),
        decreases sy - i, (if hit { 0int } else { 1int }),
    {
        let mut j: i32 = 0;
        while j < sx && !hit
            invariant
                rect_args(on@.len() as int, w as int, h as int, sy as int, sx as int, cy as int, cx as int),
                0 <= x < w,
                0 <= y < h,
                0 <= i < sy,
                0 <= j <= sx,
                hit ==> dilate_at(on@, w as int, h as int, sy as int, sx as int, cy as int, cx as int, x as int, y as int),
                !hit ==> forall|a: int, b: int| 0 <= a < i && 0 <= b < sx ==> !#[trigger] dilate_hit(on@, w as int, h as int, cy as int, cx as int, x as int, y as int, a, b),
                !hit ==> forall|b: int| 0 <= b < j ==> !#[trigger] dilate_hit(on@, w as int, h as int, cy as int, cx as int, x as int, y as int, i as int, b),
            decreases sx - j, (if hit { 0int } else { 1int }),
        {
            if get_or_false(on, w, h, x - (j - cx), y - (i - cy)) {
                assert(dilate_hit(on@, w as int, h as int, cy as int, cx as int, x as int, y as int, i as int, j as int));
                hit = true;
            } else {
                j += 1;
            }
        }
        if !hit {
            i += 1;
        }
    }
    hit
}

/// Whether every in-grid cell of the `sy × sx` sel is ON from `(x, y)`.
fn erode_search(on: &[bool], w: i32, h: i32, sy: i32, sx: i32, cy: i32, cx: i32, x: i32, y: i32) -> (all_hit: bool)
    requires
        rect_args(on@.len() as int, w as int, h as int, sy as int, sx as int, cy as int, cx as int),
        0 <= x < w,
        0 <= y < h,
    ensures
        all_hit == (forall|a: int, b: int| 0 <= a < sy && 0 <= b < sx ==> #[trigger] erode_ok(on@, w as int, h as int, cy as int, cx as int, x as int, y as int, a, b)),
{
    let mut all_hit = true;
    let mut i: i32 = 0;
    while i < sy && all_hit
        invariant
            rect_args(on@.len() as int, w as int, h as int, sy as int, sx as int, cy as int, cx as int),
            0 <= x < w,
            0 <= y < h,
            0 <= i <= sy,
            !all_hit ==> exists|a: int, b: int| 0 <= a < sy && 0 <= b < sx && !#[trigger] erode_ok(on@, w as int, h as int, cy as int, cx as int, x as int, y as int, a, b),
            all_hit ==> forall|a: int, b: int| 0 <= a < i && 0 <= b < sx ==> #[trigger] erode_ok(on@, w as int, h as int, cy as int, cx as int, x as int, y as int, a, b),
        decreases sy - i, (if all_hit { 1int } else { 0int }),
    {
        let mut j: i32 = 0;
        while j < sx && all_hit
            invariant
                rect_args(on@.len() as int, w as int, h as int, sy as int, sx as int, cy as int, cx as int),
                0 <= x < w,
                0 <= y < h,
                0 <= i < sy,
                0 <= j <= sx,
                !all_hit ==> exists|a: int, b: int| 0 <= a < sy && 0 <= b < sx && !#[trigger] erode_ok(on@, w as int, h as int, cy as int, cx as int, x as int, y as int, a, b),
                all_hit ==> forall|a: int, b: int| 0 <= a < i && 0 <= b < sx ==> #[trigger] erode_ok(on@, w as int, h as int, cy as int, cx as int, x as int, y as int, a, b),
                all_hit ==> forall|b: int| 0 <= b < j ==> #[trigger] erode_ok(on@, w as int, h as int, cy as int, cx as int, x as int, y as int, i as int, b),
            decreases sx - j, (if all_hit { 1int } else { 0int }),
        {
            let xx = x + (j - cx);
            let yy = y + (i - cy);
            if xx >= 0 && xx < w && yy >= 0 && yy < h {
                proof {
                    lemma_idx_bounds(xx as int, yy as int, w as int, h as int);
                }
                if !on[(yy * w + xx) as usize] {
                    assert(!erode_ok(on@, w as int, h as int, cy as int, cx as int, x as int, y as int, i as int, j as int));
                    all_hit = false;
                }
            }
            if all_hit {
                j += 1;
            }
        }
        if all_hit {
            i += 1;
        }
    }
    all_hit
}

/// Dilate a boolean grid by an all-hit rectangular `sy × sx` sel with origin
/// `(cy, cx)`.
fn dilate_rect(on: &[bool], w: i32, h: i32, sy: i32, sx: i32, cy: i32, cx: i32) -> (out: Vec<bool>)
    requires
        rect_args(on@.len() as int, w as int, h as int, sy as int, sx as int, cy as int, cx as int),
    ensures
        out@ == dilate_rect_spec(on@, w as int, h as int, sy as int, sx as int, cy as int, cx as int),
{
    let mut out: Vec<bool> = Vec::new();
    let mut y: i32 = 0;
    while y < h
        invariant
            rect_args(on@.len() as int, w as int, h as int, sy as int, sx as int, cy as int, cx as int),
            0 <= y <= h,
            out@.len() == y * w,
            forall|k: int| 0 <= k < out@.len() ==> out@[k] == dilate_at(on@, w as int, h as int, sy as int, sx as int, cy as int, cx as int, k % (w as int), k / (w as int)),
        decreases h - y,
    {
        let mut x: i32 = 0;
        while x < w
            invariant
                rect_args(on@.len() as int, w as int, h as int, sy as int, sx as int, cy as int, cx as int),
                0 <= y < h,
                0 <= x <= w,
                out@.len() == y * w + x,
                forall|k: int| 0 <= k < out@.len() ==> out@[k] == dilate_at(on@, w as int, h as int, sy as int, sx as int, cy as int, cx as int, k % (w as int), k / (w as int)),
            decreases w - x,
        {
            proof {
                lemma_idx_decompose(x as int, y as int, w as int);
            }
            let v = dilate_search(on, w, h, sy, sx, cy, cx, x, y);
            out.push(v);
            x += 1;
        }
        proof {
            assert(y * w + w == (y + 1) * w) by (nonlinear_arith);
        }
        y += 1;
    }
    proof {
        assert(out@ =~= dilate_rect_spec(on@, w as int, h as int, sy as int, sx as int, cy as int, cx as int));
    }
    out
}

/// Erode a boolean grid by an all-hit rectangular `sy × sx` sel with origin
/// `(cy, cx)`, then clear the
/// asymmetric border strips.
fn erode_rect(on: &[bool], w: i32, h: i32, sy: i32, sx: i32, cy: i32, cx: i32) -> (out: Vec<bool>)
    requires
        rect_args(on@.len() as int, w as int, h as int, sy as int, sx as int, cy as int, cx as int),
    ensures
        out@ == erode_rect_spec(on@, w as int, h as int, sy as int, sx as int, cy as int, cx as int),
{
    let xp = cx;
    let xn = sx - 1 - cx;
    let yp = cy;
    let yn = sy - 1 - cy;
    let mut out: Vec<bool> = Vec::new();
    let mut y: i32 = 0;
    while y < h
        invariant
            rect_args(on@.len() as int, w as int, h as int, sy as int, sx as int, cy as int, cx as int),
            xp == cx,
            xn == sx - 1 - cx,
            yp == cy,
            yn == sy - 1 - cy,
            0 <= y <= h,
            out@.len() == y * w,
            forall|k: int| 0 <= k < out@.len() ==> out@[k] == erode_at(on@, w as int, h as int, sy as int, sx as int, cy as int, cx as int, k % (w as int), k / (w as int)),
        decreases h - y,
    {
        let mut x: i32 = 0;
        while x < w
            invariant
                rect_args(on@.len() as int, w as int, h as int, sy as int, sx as int, cy as int, cx as int),
                xp == cx,
                xn == sx - 1 - cx,
                yp == cy,
                yn == sy - 1 - cy,
                0 <= y < h,
                0 <= x <= w,
                out@.len() == y * w + x,
                forall|k: int| 0 <= k < out@.len() ==> out@[k] == erode_at(on@, w as int, h as int, sy as int, sx as int, cy as int, cx as int, k % (w as int), k / (w as int)),
            decreases w - x,
        {
            proof {
                lemma_idx_decompose(x as int, y as int, w as int);
            }
            let all_hit = erode_search(on, w, h, sy, sx, cy, cx, x, y);
            let cleared = x < xp || x >= w - xn || y < yp || y >= h - yn;
            out.push(all_hit && !cleared);
            x += 1;
        }
        proof {
            assert(y * w + w == (y + 1) * w) by (nonlinear_arith);
        }
        y += 1;
    }
    proof {
        assert(out@ =~= erode_rect_spec(on@, w as int, h as int, sy as int, sx as int, cy as int, cx as int));
    }
    out
}

/// Ink bytes as booleans.
fn to_on(binary: &[u8]) -> (on: Vec<bool>)
    ensures
        on@ == to_on_spec(binary@),
{
    let mut on: Vec<bool> = Vec::with_capacity(binary.len());
    let mut i: usize = 0;
    while i < binary.len()
        invariant
            i <= binary@.len(),
            on@.len() == i,
            forall|k: int| 0 <= k < i ==> on@[k] == (binary@[k] == 0),
        decreases binary@.len() - i,
    {
        on.push(binary[i] == 0);
        i += 1;
    }
    proof {
        assert(on@ =~= to_on_spec(binary@));
    }
    on
}

/// Booleans as ink (`0`) / background (`255`) bytes.
fn from_on(on: &[bool]) -> (b: Vec<u8>)
    ensures
        b@ == from_on_spec(on@),
{
    let mut b: Vec<u8> = Vec::with_capacity(on.len());
    let mut i: usize = 0;
    while i < on.len()
        invariant
            i <= on@.len(),
            b@.len() == i,
            forall|k: int| 0 <= k < i ==> b@[k] == (if on@[k] { 0u8 } else { 255u8 }),
        decreases on@.len() - i,
    {
        b.push(if on[i] { 0u8 } else { 255u8 });
        i += 1;
    }
    proof {
        assert(b@ =~= from_on_spec(on@));
    }
    b
}

fn copy_bools(src: &[bool]) -> (v: Vec<bool>)
    ensures
        v@ == src@,
{
    let mut v: Vec<bool> = Vec::with_capacity(src.len());
    let mut i: usize = 0;
    while i < src.len()
        invariant
            i <= src@.len(),
            v@.len() == i,
            forall|k: int| 0 <= k < i ==> v@[k] == src@[k],
        decreases src@.len() - i,
    {
        v.push(src[i]);
        i += 1;
    }
    proof {
        assert(v@ =~= src@);
    }
    v
}

fn dilate_brick_bool(on: &[bool], w: usize, h: usize, hsize: usize, vsize: usize) -> (out: Vec<bool>)
    requires
        on@.len() == w * h,
        brick_fits(w as int, h as int, hsize as int, vsize as int),
    ensures
        out@ == dilate_brick_spec(on@, w as int, h as int, hsize as int, vsize as int),
        out@.len() == w * h,
{
    let wi = w as i32;
    let hi = h as i32;
    if hsize == 1 && vsize == 1 {
        return copy_bools(on);
    }
    proof {
        assert(h * w == w * h) by (nonlinear_arith);
    }
    if hsize == 1 || vsize == 1 {
        let sy = vsize as i32;
        let sx = hsize as i32;
        return dilate_rect(on, wi, hi, sy, sx, sy / 2, sx / 2);
    }
    let step1 = dilate_rect(on, wi, hi, 1, hsize as i32, 0, (hsize / 2) as i32);
    dilate_rect(&step1, wi, hi, vsize as i32, 1, (vsize / 2) as i32, 0)
}

fn erode_brick_bool(on: &[bool], w: usize, h: usize, hsize: usize, vsize: usize) -> (out: Vec<bool>)
    requires
        on@.len() == w * h,
        brick_fits(w as int, h as int, hsize as int, vsize as int),
    ensures
        out@ == erode_brick_spec(on@, w as int, h as int, hsize as int, vsize as int),
        out@.len() == w * h,
{
    let wi = w as i32;
    let hi = h as i32;
    if hsize == 1 && vsize == 1 {
        return copy_bools(on);
    }
    proof {
        assert(h * w == w * h) by (nonlinear_arith);
    }
    if hsize == 1 || vsize == 1 {
        let sy = vsize as i32;
        let sx = hsize as i32;
        return erode_rect(on, wi, hi, sy, sx, sy / 2, sx / 2);
    }
    let step1 = erode_rect(on, wi, hi, 1, hsize as i32, 0, (hsize / 2) as i32);
    erode_rect(&step1, wi, hi, vsize as i32, 1, (vsize / 2) as i32, 0)
}

/// Brick dilation of a `w × h` binary image by an
/// `hsize × vsize` brick with origin `(hsize/2, vsize/2)`: a `1 × 1` brick
/// copies (normalised to `0` / `255`), a brick with one side 1 applies one
/// sel, otherwise horizontal then vertical.
pub fn dilate_brick(binary: &[u8], w: usize, h: usize, hsize: usize, vsize: usize) -> (out: Vec<u8>)
    requires
        binary@.len() == w * h,
        brick_fits(w as int, h as int, hsize as int, vsize as int),
    ensures
        out@ == from_on_spec(dilate_brick_spec(to_on_spec(binary@), w as int, h as int, hsize as int, vsize as int)),
{
    let on = dilate_brick_bool(&to_on(binary), w, h, hsize, vsize);
    from_on(&on)
}

/// Brick erosion: same shape and shortcuts as
/// [`dilate_brick`], each stage clearing its own asymmetric border strips.
pub fn erode_brick(binary: &[u8], w: usize, h: usize, hsize: usize, vsize: usize) -> (out: Vec<u8>)
    requires
        binary@.len() == w * h,
        brick_fits(w as int, h as int, hsize as int, vsize as int),
    ensures
        out@ == from_on_spec(erode_brick_spec(to_on_spec(binary@), w as int, h as int, hsize as int, vsize as int)),
{
    let on = erode_brick_bool(&to_on(binary), w, h, hsize, vsize);
    from_on(&on)
}

/// Brick opening: erosion followed by dilation with the
/// same brick.
pub fn open_brick(binary: &[u8], w: usize, h: usize, hsize: usize, vsize: usize) -> (out: Vec<u8>)
    requires
        binary@.len() == w * h,
        brick_fits(w as int, h as int, hsize as int, vsize as int),
    ensures
        out@ == from_on_spec(dilate_brick_spec(erode_brick_spec(to_on_spec(binary@), w as int, h as int, hsize as int, vsize as int), w as int, h as int, hsize as int, vsize as int)),
{
    let eroded = erode_brick_bool(&to_on(binary), w, h, hsize, vsize);
    let opened = dilate_brick_bool(&eroded, w, h, hsize, vsize);
    from_on(&opened)
}

/// Brick closing (not the border-safe variant): dilation
/// followed by erosion with the same brick.
pub fn close_brick(binary: &[u8], w: usize, h: usize, hsize: usize, vsize: usize) -> (out: Vec<u8>)
    requires
        binary@.len() == w * h,
        brick_fits(w as int, h as int, hsize as int, vsize as int),
    ensures
        out@ == from_on_spec(erode_brick_spec(dilate_brick_spec(to_on_spec(binary@), w as int, h as int, hsize as int, vsize as int), w as int, h as int, hsize as int, vsize as int)),
{
    let dilated = dilate_brick_bool(&to_on(binary), w, h, hsize, vsize);
    let closed = erode_brick_bool(&dilated, w, h, hsize, vsize);
    from_on(&closed)
}

} // verus!
