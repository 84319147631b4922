//! Orthogonal quarter-turn rotation of a grey image and the per-row ink profile that skew scoring reads.
use vstd::prelude::*;
use crate::grid::{idx, lemma_idx_bounds, lemma_idx_decompose, lemma_idx_split};

verus! {

/// The quarter-turn of a `w × h` grey image: an `h × w` image (width `h`,
/// height `w`). Clockwise (`dir == 1`): `out[r][c] = in[h-1-c][r]`;
/// counter-clockwise: `out[r][c] = in[c][w-1-r]` (`[row][column]`).
pub open spec fn rotate90_spec(g: Seq<u8>, w: int, h: int, dir: int) -> Seq<u8> {
    Seq::new(
        (w * h) as nat,
        |k: int|
            if dir == 1 {
                g[idx(k / h, h - 1 - k % h, w)]
            } else {
                g[idx(w - 1 - k / h, k % h, w)]
            },
    )
}

/// Quarter-turn a `w × h` grey image by 90° clockwise (`direction == 1`) or
/// counter-clockwise (`direction == -1`); returns `(out, out_w, out_h)` with
/// `out_w == h`, `out_h == w`.
pub fn rotate90_grey(grey: &[u8], w: usize, h: usize, direction: i32) -> (r: (Vec<u8>, usize, usize))
    requires
        grey@.len() == w * h,
        w * h <= usize::MAX,
        direction == 1 || direction == -1,
    ensures
        r.1 == h,
        r.2 == w,
        r.0@ == rotate90_spec(grey@, w as int, h as int, direction as int),
        forall|row: int, col: int| 0 <= row < w && 0 <= col < h ==> #[trigger] r.0@[row * h + col] == if direction == 1 {
            grey@[(h - 1 - col) * w + row]
        } else {
            grey@[col * w + (w - 1 - row)]
        },
{
    let out_w = h;
    let out_h = w;
    let ghost g = grey@;
    let mut out: Vec<u8> = Vec::new();
    let mut r: usize = 0;
    while r < out_h
        invariant
            g == grey@,
            g.len() == w * h,
            w * h <= usize::MAX,
            out_w == h,
            out_h == w,
            direction == 1 || direction == -1,
            r <= out_h,
            out@.len() == r * out_w,
            forall|k: int| 0 <= k < out@.len() ==> out@[k] == rotate90_spec(g, w as int, h as int, direction as int)[k],
        decreases out_h - r,
    {
        let mut c: usize = 0;
        while c < out_w
            invariant
                g == grey@,
                g.len() == w * h,
                w * h <= usize::MAX,
                out_w == h,
                out_h == w,
                direction == 1 || direction == -1,
                r < out_h,
                c <= out_w,
                out@.len() == r * out_w + c,
                forall|k: int| 0 <= k < out@.len() ==> out@[k] == rotate90_spec(g, w as int, h as int, direction as int)[k],
            decreases out_w - c,
        {
            proof {
                lemma_idx_decompose(c as int, r as int, out_w as int);
                lemma_idx_bounds(c as int, r as int, out_w as int, out_h as int);
                assert(h * w == w * h) by (nonlinear_arith);
            }
            let v = if direction == 1 {
                proof {
                    lemma_idx_bounds(r as int, (h - 1 - c) as int, w as int, h as int);
                }
                grey[(h - 1 - c) * w + r]
            } else {
                proof {
                    lemma_idx_bounds((w - 1 - r) as int, c as int, w as int, h as int);
                }
                grey[c * w + (w - 1 - r)]
            };
            out.push(v);
            c += 1;
        }
        proof {
            assert(r * out_w + out_w == (r + 1) * out_w) by (nonlinear_arith);
        }
        r += 1;
    }
    proof {
        assert(out_h * out_w == w * h) by (nonlinear_arith)
            requires
                out_h == w,
                out_w == h,
        ;
        assert(out@ =~= rotate90_spec(g, w as int, h as int, direction as int));
        assert forall|row: int, col: int| 0 <= row < w && 0 <= col < h implies #[trigger] out@[row * h + col] == if direction == 1 {
            g[(h - 1 - col) * w + row]
        } else {
            g[col * w + (w - 1 - row)]
        } by {
            lemma_rotate90_moves_pixels(g, w as int, h as int, row, col);
        }
    }
    (out, out_w, out_h)
}

/// Law: the quarter-turns move pixels where a turn of the page moves them.
/// The result is `h` wide and `w` tall; clockwise (`1`), output row `r`,
/// column `c` is input column `r`, row `h - 1 - c`; counter-clockwise
/// (`-1`), it is input column `w - 1 - r`, row `c`. This holds for square
/// and non-square images alike.
pub proof fn lemma_rotate90_moves_pixels(g: Seq<u8>, w: int, h: int, r: int, c: int)
    requires
        g.len() == w * h,
        0 <= r < w,
        0 <= c < h,
    ensures
        rotate90_spec(g, w, h, 1).len() == w * h,
        rotate90_spec(g, w, h, -1).len() == w * h,
        rotate90_spec(g, w, h, 1)[r * h + c] == g[(h - 1 - c) * w + r],
        rotate90_spec(g, w, h, -1)[r * h + c] == g[c * w + (w - 1 - r)],
{
    lemma_idx_bounds(c, r, h, w);
    lemma_idx_decompose(c, r, h);
    assert(h * w == w * h) by (nonlinear_arith);
}

/// The half-turn: `out[r][c] = in[h-1-r][w-1-c]`.
pub open spec fn rotate180_spec(g: Seq<u8>, w: int, h: int) -> Seq<u8> {
    Seq::new((w * h) as nat, |k: int| g[idx(w - 1 - k % w, h - 1 - k / w, w)])
}

/// Two clockwise quarter-turns make a half-turn.
proof fn lemma_two_cw_is_half_turn(g: Seq<u8>, w: int, h: int)
    requires
        w >= 0,
        h >= 0,
        g.len() == w * h,
    ensures
        rotate90_spec(rotate90_spec(g, w, h, 1), h, w, 1) == rotate180_spec(g, w, h),
{
    let a = rotate90_spec(g, w, h, 1);
    let c = rotate90_spec(a, h, w, 1);
    assert(h * w == w * h) by (nonlinear_arith);
    assert forall|k: int| 0 <= k < w * h implies c[k] == rotate180_spec(g, w, h)[k] by {
        lemma_idx_split(k, w, h);
        let r = k / w;
        let cc = k % w;
        lemma_idx_bounds(r, w - 1 - cc, h, w);
        lemma_idx_decompose(r, w - 1 - cc, h);
    }
    assert(c =~= rotate180_spec(g, w, h));
}

/// Two half-turns restore the image.
proof fn lemma_half_turn_twice(g: Seq<u8>, w: int, h: int)
    requires
        w >= 0,
        h >= 0,
        g.len() == w * h,
    ensures
        rotate180_spec(rotate180_spec(g, w, h), w, h) == g,
{
    let c = rotate180_spec(rotate180_spec(g, w, h), w, h);
    assert forall|k: int| 0 <= k < w * h implies c[k] == g[k] by {
        lemma_idx_split(k, w, h);
        let r = k / w;
        let cc = k % w;
        lemma_idx_bounds(w - 1 - cc, h - 1 - r, w, h);
        lemma_idx_decompose(w - 1 - cc, h - 1 - r, w);
    }
    assert(c =~= g);
}

/// Law: a clockwise quarter-turn followed by a counter-clockwise one gives
/// back the image.
pub proof fn lemma_cw_then_ccw_is_identity(g: Seq<u8>, w: int, h: int)
    requires
        w >= 0,
        h >= 0,
        g.len() == w * h,
    ensures
        rotate90_spec(rotate90_spec(g, w, h, 1), h, w, -1) == g,
{
    let a = rotate90_spec(g, w, h, 1);
    let c = rotate90_spec(a, h, w, -1);
    assert(h * w == w * h) by (nonlinear_arith);
    assert forall|k: int| 0 <= k < w * h implies c[k] == g[k] by {
        lemma_idx_split(k, w, h);
        let r = k / w;
        let cc = k % w;
        lemma_idx_bounds(h - 1 - r, cc, h, w);
        lemma_idx_decompose(h - 1 - r, cc, h);
    }
    assert(c =~= g);
}

/// Law: a counter-clockwise quarter-turn followed by a clockwise one gives
/// back the image.
pub proof fn lemma_ccw_then_cw_is_identity(g: Seq<u8>, w: int, h: int)
    requires
        w >= 0,
        h >= 0,
        g.len() == w * h,
    ensures
        rotate90_spec(rotate90_spec(g, w, h, -1), h, w, 1) == g,
{
    let a = rotate90_spec(g, w, h, -1);
    let c = rotate90_spec(a, h, w, 1);
    assert(h * w == w * h) by (nonlinear_arith);
    assert forall|k: int| 0 <= k < w * h implies c[k] == g[k] by {
        lemma_idx_split(k, w, h);
        let r = k / w;
        let cc = k % w;
        lemma_idx_bounds(r, w - 1 - cc, h, w);
        lemma_idx_decompose(r, w - 1 - cc, h);
    }
    assert(c =~= g);
}

/// Law: four clockwise quarter-turns give back the image.
pub proof fn lemma_four_cw_turns_is_identity(g: Seq<u8>, w: int, h: int)
    requires
        w >= 0,
        h >= 0,
        g.len() == w * h,
    ensures
        rotate90_spec(rotate90_spec(rotate90_spec(rotate90_spec(g, w, h, 1), h, w, 1), w, h, 1), h, w, 1) == g,
{
    lemma_two_cw_is_half_turn(g, w, h);
    let half = rotate180_spec(g, w, h);
    lemma_two_cw_is_half_turn(half, w, h);
    lemma_half_turn_twice(g, w, h);
}

/// Law: four counter-clockwise quarter-turns give back the image.
pub proof fn lemma_four_ccw_turns_is_identity(g: Seq<u8>, w: int, h: int)
    requires
        w >= 0,
        h >= 0,
        g.len() == w * h,
    ensures
        rotate90_spec(rotate90_spec(rotate90_spec(rotate90_spec(g, w, h, -1), h, w, -1), w, h, -1), h, w, -1) == g,
{
    let a = rotate90_spec(g, w, h, -1);
    let b = rotate90_spec(a, h, w, -1);
    let c = rotate90_spec(b, w, h, -1);
    let d = rotate90_spec(c, h, w, -1);
    assert(h * w == w * h) by (nonlinear_arith);
    lemma_ccw_then_cw_is_identity(c, h, w);
    lemma_ccw_then_cw_is_identity(b, w, h);
    lemma_ccw_then_cw_is_identity(a, h, w);
    lemma_ccw_then_cw_is_identity(g, w, h);
    lemma_four_cw_turns_is_identity(d, w, h);
}

/// Number of ink (`0`) pixels among the first `n` pixels of row `y` of a
/// `w`-wide binary image.
pub open spec fn row_ink(b: Seq<u8>, w: int, y: int, n: int) -> int
    decreases n,
{
    if n <= 0 {
        0
    } else {
        row_ink(b, w, y, n - 1) + if b[idx(n - 1, y, w)] == 0 { 1int } else { 0int }
    }
}

/// Ink pixels per row of a `w × h` binary image (the profile the skew
/// score is computed from), top row first.
pub fn count_pixels_by_row(binary: &[u8], w: usize, h: usize) -> (na: Vec<i32>)
    requires
        binary@.len() == w * h,
        w <= i32::MAX,
    ensures
        na@.len() == h,
        forall|y: int| 0 <= y < h ==> #[trigger] na@[y] as int == row_ink(binary@, w as int, y, w as int),
{
    let mut na: Vec<i32> = Vec::with_capacity(h);
    let mut y: usize = 0;
    while y < h
        invariant
            binary@.len() == w * h,
            w <= i32::MAX,
            y <= h,
            na@.len() == y,
            forall|k: int| 0 <= k < y ==> #[trigger] na@[k] as int == row_ink(binary@, w as int, k, w as int),
        decreases h - y,
    {
        let mut count: i32 = 0;
        let mut x: usize = 0;
        while x < w
            invariant
                binary@.len() == w * h,
                w <= i32::MAX,
                y < h,
                x <= w,
                count as int == row_ink(binary@, w as int, y as int, x as int),
                0 <= count <= x,
            decreases w - x,
        {
            proof {
                lemma_idx_bounds(x as int, y as int, w as int, h as int);
                assert(binary@.len() == binary.len());
            }
            if binary[y * w + x] == 0 {
                count += 1;
            }
            x += 1;
        }
        na.push(count);
        y += 1;
    }
    na
}

} // verus!
