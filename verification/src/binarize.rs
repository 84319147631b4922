//! Integer building blocks of local-threshold binarization: mirrored
//! borders, the summed-area table of a window sum, the window-size guard,
//! and applying a per-pixel threshold map.
use vstd::prelude::*;
use vstd::arithmetic::div_mod::{
    lemma_add_mod_noop, lemma_fundamental_div_mod, lemma_fundamental_div_mod_converse, lemma_mod_bound, lemma_mod_multiples_vanish,
    lemma_mod_sub_multiples_vanish, lemma_small_mod, lemma_sub_mod_noop,
};
use crate::grid::{idx, lemma_idx_bounds};

verus! {

/// The result of a local binarization: the per-pixel local threshold map
/// and the binary foreground mask (one 0/1 byte per pixel, 1 = black).
#[derive(Clone, Debug, PartialEq, Eq)]
pub struct LocalBinarization {
    /// Image width.
    pub w: usize,
    /// Image height.
    pub h: usize,
    /// Per-pixel local threshold.
    pub threshold: Vec<u8>,
    /// Per-pixel binary foreground (1 = black text, 0 = background).
    pub binary: Vec<u8>,
}

/// Local thresholding: pixel `i` is foreground (1) exactly when
/// `grey[i] < thresh[i]`, else background (0).
pub fn apply_local_threshold(grey: &[u8], thresh: &[u8], n: usize) -> (d: Vec<u8>)
    requires
        n <= grey@.len(),
        n <= thresh@.len(),
    ensures
        d@.len() == n,
        forall|i: int| 0 <= i < n ==> d@[i] == if grey@[i] < thresh@[i] { 1u8 } else { 0u8 },
{
    let mut d: Vec<u8> = Vec::with_capacity(n);
    let mut i: usize = 0;
    while i < n
        invariant
            n <= grey@.len(),
            n <= thresh@.len(),
            i <= n,
            d@.len() == i,
            forall|k: int| 0 <= k < i ==> d@[k] == if grey@[k] < thresh@[k] { 1u8 } else { 0u8 },
        decreases n - i,
    {
        d.push(if grey[i] < thresh[i] { 1u8 } else { 0u8 });
        i += 1;
    }
    d
}

/// Index `t` folded into `0..n` by reflecting at both edges, repeatedly:
/// `…, 1, 0 | 0, 1, …, n-1 | n-1, n-2, …`.
pub open spec fn sym(t: int, n: int) -> int {
    let m = t % (2 * n);
    if m < n { m } else { 2 * n - 1 - m }
}

/// The image `src` (`w × h`) with a mirrored border of `b` pixels on every
/// side: output pixel `(x, y)` is source pixel
/// `(sym(x - b, w), sym(y - b, h))`; all zero for an empty source.
pub open spec fn mirrored(src: Seq<u8>, w: int, h: int, b: int, x: int, y: int) -> u8 {
    if w == 0 || h == 0 {
        0
    } else {
        src[idx(sym(x - b, w), sym(y - b, h), w)]
    }
}

proof fn lemma_sym_facts(t: int, n: int)
    requires
        n >= 1,
    ensures
        0 <= sym(t, n) < n,
        0 <= t < n ==> sym(t, n) == t,
        sym(-1 - t, n) == sym(t, n),
        sym(t + 2 * n, n) == sym(t, n),
{
    let p = 2 * n;
    lemma_fundamental_div_mod(t, p);
    lemma_mod_bound(t, p);
    let q = t / p;
    let m = t % p;
    if 0 <= t < n {
        lemma_fundamental_div_mod_converse(t, p, 0, t);
    }
    assert(-1 - t == p * (-q - 1) + (p - 1 - m)) by (nonlinear_arith)
        requires
            t == p * q + m,
    ;
    lemma_fundamental_div_mod_converse(-1 - t, p, -q - 1, p - 1 - m);
    assert(t + p == p * (q + 1) + m) by (nonlinear_arith)
        requires
            t == p * q + m,
    ;
    lemma_fundamental_div_mod_converse(t + p, p, q + 1, m);
}

/// Reflect a border of `b` pixels on all four sides.
/// The reflection duplicates the edge (the pixel just outside the image
/// equals the edge pixel). Left and right borders are filled over the image
/// rows first, then top and bottom over the full width, so the corners
/// mirror too; a border wider than the image keeps reflecting. Returns
/// `(w + 2b, h + 2b, bordered)`.
pub fn add_mirrored_border(src: &[u8], w: usize, h: usize, b: usize) -> (r: (usize, usize, Vec<u8>))
    requires
        src@.len() == w * h,
        w + 2 * b <= usize::MAX,
        h + 2 * b <= usize::MAX,
        (w + 2 * b) * (h + 2 * b) <= usize::MAX,
    ensures
        r.0 == w + 2 * b,
        r.1 == h + 2 * b,
        r.2@.len() == r.0 * r.1,
        forall|x: int, y: int| 0 <= x < r.0 && 0 <= y < r.1 ==> r.2@[idx(x, y, r.0 as int)] == mirrored(src@, w as int, h as int, b as int, x, y),
{
    let wd = w + 2 * b;
    let hd = h + 2 * b;
    let n = wd * hd;
    let mut d: Vec<u8> = Vec::with_capacity(n);
    let mut k: usize = 0;
    while k < n
        invariant
            k <= n,
            d@.len() == k,
            forall|i: int| 0 <= i < k ==> d@[i] == 0,
        decreases n - k,
    {
        d.push(0);
        k += 1;
    }
    if w == 0 || h == 0 {
        proof {
            assert forall|x: int, y: int| 0 <= x < wd && 0 <= y < hd implies d@[idx(x, y, wd as int)] == mirrored(src@, w as int, h as int, b as int, x, y) by {
                lemma_idx_bounds(x, y, wd as int, hd as int);
            }
        }
        return (wd, hd, d);
    }
    let ghost s = src@;
    let slen = src.len();
    proof {
        assert forall|cx: int, cy: int| 0 <= cx < wd && 0 <= cy < hd implies #[trigger] d@[idx(cx, cy, wd as int)] == 0 by {
            lemma_idx_bounds(cx, cy, wd as int, hd as int);
        }
    }
    let ghost wi = w as int;
    let ghost hi = h as int;
    let ghost bi = b as int;
    let ghost wdi = wd as int;
    let ghost hdi = hd as int;
    // Centre.
    let mut y: usize = 0;
    while y < h
        invariant
            s == src@,
            wi == w,
            hi == h,
            bi == b,
            wdi == wd,
            hdi == hd,
            1 <= w,
            1 <= h,
            wd == w + 2 * b,
            hd == h + 2 * b,
            s.len() == w * h,
            slen == w * h,
            d@.len() == wd * hd,
            wd * hd <= usize::MAX,
            y <= h,
            forall|cx: int, cy: int| 0 <= cx < wd && 0 <= cy < hd ==> #[trigger] d@[idx(cx, cy, wdi)] == if b <= cx < b + w && b <= cy < b
                + y { s[idx(cx - bi, cy - bi, wi)] } else { 0u8 },
        decreases h - y,
    {
        let mut x: usize = 0;
        while x < w
            invariant
                s == src@,
                wi == w,
                hi == h,
                bi == b,
                wdi == wd,
                hdi == hd,
                1 <= w,
                1 <= h,
                wd == w + 2 * b,
                hd == h + 2 * b,
                s.len() == w * h,
                slen == w * h,
                d@.len() == wd * hd,
                wd * hd <= usize::MAX,
                y < h,
                x <= w,
                forall|cx: int, cy: int| 0 <= cx < wd && 0 <= cy < hd ==> #[trigger] d@[idx(cx, cy, wdi)] == if b <= cx < b + w && (b <= cy
                    < b + y || (cy == b + y && cx < b + x)) { s[idx(cx - bi, cy - bi, wi)] } else { 0u8 },
            decreases w - x,
        {
            proof {
                lemma_idx_bounds(x as int, y as int, wi, hi);
                lemma_idx_bounds((x + b) as int, (y + b) as int, wdi, hdi);
            }
            let v = src[y * w + x];
            let ghost before = d@;
            d.set((y + b) * wd + (x + b), v);
            proof {
                assert forall|cx: int, cy: int| 0 <= cx < wd && 0 <= cy < hd implies #[trigger] d@[idx(cx, cy, wdi)] == if b <= cx < b + w
                    && (b <= cy < b + y || (cy == b + y && cx < b + x + 1)) { s[idx(cx - bi, cy - bi, wi)] } else { 0u8 } by {
                    lemma_idx_bounds(cx, cy, wdi, hdi);
                    if !(cx == x + b && cy == y + b) {
                        crate::seedfill::lemma_pixel_distinct(cx, cy, x + bi, y + bi, wdi, hdi);
                        assert(d@[idx(cx, cy, wdi)] == before[idx(cx, cy, wdi)]);
                    }
                }
            }
            x += 1;
        }
        y += 1;
    }
    // Left + right, over the centre rows.
    let mut y: usize = 0;
    while y < h
        invariant
            s == src@,
            wi == w,
            hi == h,
            bi == b,
            wdi == wd,
            hdi == hd,
            1 <= w,
            1 <= h,
            wd == w + 2 * b,
            hd == h + 2 * b,
            s.len() == w * h,
            slen == w * h,
            d@.len() == wd * hd,
            wd * hd <= usize::MAX,
            y <= h,
            forall|cx: int, cy: int| 0 <= cx < wd && 0 <= cy < hd ==> #[trigger] d@[idx(cx, cy, wdi)] == if b <= cy < b + y {
                s[idx(sym(cx - bi, wi), cy - bi, wi)]
            } else if b <= cx < b + w && b <= cy < b + h {
                s[idx(cx - bi, cy - bi, wi)]
            } else {
                0u8
            },
        decreases h - y,
    {
        proof {
            lemma_idx_bounds(0, (y + b) as int, wdi, hdi);
            assert forall|cx: int, cy: int| 0 <= cx < wd && 0 <= cy < hd implies #[trigger] d@[idx(cx, cy, wdi)] == if b <= cy < b + y || (cy
                == b + y && b <= cx < b + w) {
                s[idx(sym(cx - bi, wi), cy - bi, wi)]
            } else if b <= cx < b + w && b <= cy < b + h {
                s[idx(cx - bi, cy - bi, wi)]
            } else {
                0u8
            } by {
                if b <= cx < b + w {
                    lemma_sym_facts(cx - bi, wi);
                }
            }
        }
        let row = (y + b) * wd;
        let mut j: usize = 0;
        while j < b
            invariant
                s == src@,
                wi == w,
                hi == h,
                bi == b,
                wdi == wd,
                hdi == hd,
                1 <= w,
                1 <= h,
                wd == w + 2 * b,
                hd == h + 2 * b,
                s.len() == w * h,
                slen == w * h,
                d@.len() == wd * hd,
                wd * hd <= usize::MAX,
                y < h,
                row == (y + b) * wd,
                j <= b,
                forall|cx: int, cy: int| 0 <= cx < wd && 0 <= cy < hd ==> #[trigger] d@[idx(cx, cy, wdi)] == if b <= cy < b + y || (cy
                    == b + y && b - j <= cx < b + w + j) {
                    s[idx(sym(cx - bi, wi), cy - bi, wi)]
                } else if b <= cx < b + w && b <= cy < b + h {
                    s[idx(cx - bi, cy - bi, wi)]
                } else {
                    0u8
                },
            decreases b - j,
        {
            let ghost cy = (y + b) as int;
            proof {
                lemma_idx_bounds(0, cy, wdi, hdi);
                lemma_idx_bounds((b - 1 - j) as int, cy, wdi, hdi);
                lemma_idx_bounds((b + j) as int, cy, wdi, hdi);
                lemma_idx_bounds((b + w + j) as int, cy, wdi, hdi);
                lemma_idx_bounds((b + w - 1 - j) as int, cy, wdi, hdi);
                lemma_sym_facts(j as int, wi);
                lemma_sym_facts((w - 1 - j) as int, wi);
                lemma_sym_facts(-1 - (w + j) as int, wi);
                lemma_sym_facts((w + j) as int, wi);
            }
            // left: col (b-1-j) <- col (b+j)
            let lv = d[row + (b + j)];
            let ghost d1 = d@;
            d.set(row + (b - 1 - j), lv);
            proof {
                assert forall|cx: int, cy2: int| 0 <= cx < wd && 0 <= cy2 < hd implies #[trigger] d@[idx(cx, cy2, wdi)] == if b <= cy2 < b + y || (
                cy2 == b + y && b - j - 1 <= cx < b + w + j) {
                    s[idx(sym(cx - bi, wi), cy2 - bi, wi)]
                } else if b <= cx < b + w && b <= cy2 < b + h {
                    s[idx(cx - bi, cy2 - bi, wi)]
                } else {
                    0u8
                } by {
                    lemma_idx_bounds(cx, cy2, wdi, hdi);
                    if !(cx == b - 1 - j && cy2 == cy) {
                        crate::seedfill::lemma_pixel_distinct(cx, cy2, bi - 1 - j, cy, wdi, hdi);
                        assert(d@[idx(cx, cy2, wdi)] == d1[idx(cx, cy2, wdi)]);
                    } else {
                        assert(d1[idx(bi + j, cy, wdi)] == s[idx(sym(j as int, wi), cy - bi, wi)]);
                    }
                }
            }
            // right: col (b+w+j) <- col (b+w-1-j)
            let rv = d[row + (b + w - 1 - j)];
            let ghost d2 = d@;
            d.set(row + (b + w + j), rv);
            proof {
                assert forall|cx: int, cy2: int| 0 <= cx < wd && 0 <= cy2 < hd implies #[trigger] d@[idx(cx, cy2, wdi)] == if b <= cy2 < b + y || (
                cy2 == b + y && b - (j + 1) <= cx < b + w + j + 1) {
                    s[idx(sym(cx - bi, wi), cy2 - bi, wi)]
                } else if b <= cx < b + w && b <= cy2 < b + h {
                    s[idx(cx - bi, cy2 - bi, wi)]
                } else {
                    0u8
                } by {
                    lemma_idx_bounds(cx, cy2, wdi, hdi);
                    if !(cx == b + w + j && cy2 == cy) {
                        crate::seedfill::lemma_pixel_distinct(cx, cy2, bi + wi + j, cy, wdi, hdi);
                        assert(d@[idx(cx, cy2, wdi)] == d2[idx(cx, cy2, wdi)]);
                    } else {
                        assert(sym(w + j as int, wi) == sym(w - 1 - j as int, wi)) by {
                            lemma_sym_facts(-1 - (w + j) as int + 2 * wi, wi);
                        }
                        assert(d2[idx(bi + wi - 1 - j, cy, wdi)] == s[idx(sym(wi - 1 - j, wi), cy - bi, wi)]);
                    }
                }
            }
            j += 1;
        }
        proof {
            assert forall|cx: int, cy: int| 0 <= cx < wd && 0 <= cy < hd implies #[trigger] d@[idx(cx, cy, wdi)] == if b <= cy < b + y + 1 {
                s[idx(sym(cx - bi, wi), cy - bi, wi)]
            } else if b <= cx < b + w && b <= cy < b + h {
                s[idx(cx - bi, cy - bi, wi)]
            } else {
                0u8
            } by {
                if b <= cx < b + w {
                    lemma_sym_facts(cx - bi, wi);
                }
            }
        }
        y += 1;
    }
    proof {
        assert forall|cx: int, cy: int| 0 <= cx < wd && 0 <= cy < hd implies #[trigger] d@[idx(cx, cy, wdi)] == if b <= cy < b + h {
            s[idx(sym(cx - bi, wi), sym(cy - bi, hi), wi)]
        } else {
            0u8
        } by {
            if b <= cy < b + h {
                lemma_sym_facts(cy - bi, hi);
            }
        }
    }
    // Top + bottom, over the full width.
    let mut i: usize = 0;
    while i < b
        invariant
            s == src@,
            wi == w,
            hi == h,
            bi == b,
            wdi == wd,
            hdi == hd,
            1 <= w,
            1 <= h,
            wd == w + 2 * b,
            hd == h + 2 * b,
            s.len() == w * h,
            slen == w * h,
            d@.len() == wd * hd,
            wd * hd <= usize::MAX,
            i <= b,
            forall|cx: int, cy: int| 0 <= cx < wd && 0 <= cy < hd ==> #[trigger] d@[idx(cx, cy, wdi)] == if b - i <= cy < b + h + i {
                s[idx(sym(cx - bi, wi), sym(cy - bi, hi), wi)]
            } else {
                0u8
            },
        decreases b - i,
    {
        proof {
            lemma_idx_bounds(0, (b - 1 - i) as int, wdi, hdi);
            lemma_idx_bounds(0, (b + i) as int, wdi, hdi);
            lemma_idx_bounds(0, (b + h + i) as int, wdi, hdi);
            lemma_idx_bounds(0, (b + h - 1 - i) as int, wdi, hdi);
        }
        let dst_top = (b - 1 - i) * wd;
        let src_top = (b + i) * wd;
        let dst_bot = (b + h + i) * wd;
        let src_bot = (b + h - 1 - i) * wd;
        let mut x: usize = 0;
        while x < wd
            invariant
                s == src@,
                wi == w,
                hi == h,
                bi == b,
                wdi == wd,
                hdi == hd,
                1 <= w,
                1 <= h,
                wd == w + 2 * b,
                hd == h + 2 * b,
                s.len() == w * h,
                slen == w * h,
                d@.len() == wd * hd,
                wd * hd <= usize::MAX,
                i < b,
                dst_top == (b - 1 - i) * wd,
                src_top == (b + i) * wd,
                dst_bot == (b + h + i) * wd,
                src_bot == (b + h - 1 - i) * wd,
                x <= wd,
                forall|cx: int, cy: int| 0 <= cx < wd && 0 <= cy < hd ==> #[trigger] d@[idx(cx, cy, wdi)] == if (b - i <= cy < b + h + i) || ((
                cy == b - 1 - i || cy == b + h + i) && cx < x) {
                    s[idx(sym(cx - bi, wi), sym(cy - bi, hi), wi)]
                } else {
                    0u8
                },
            decreases wd - x,
        {
            let ghost xi = x as int;
            let ghost ty = (b - 1 - i) as int;
            let ghost by_ = (b + h + i) as int;
            proof {
                lemma_idx_bounds(xi, ty, wdi, hdi);
                lemma_idx_bounds(xi, (b + i) as int, wdi, hdi);
                lemma_idx_bounds(xi, by_, wdi, hdi);
                lemma_idx_bounds(xi, (b + h - 1 - i) as int, wdi, hdi);
                lemma_sym_facts((i as int), hi);
                lemma_sym_facts((h + i) as int, hi);
                lemma_sym_facts(-1 - (h + i) as int, hi);
            }
            let tv = d[src_top + x];
            let ghost d1 = d@;
            d.set(dst_top + x, tv);
            proof {
                assert forall|cx: int, cy: int| 0 <= cx < wd && 0 <= cy < hd implies #[trigger] d@[idx(cx, cy, wdi)] == if (b - i <= cy < b
                    + h + i) || ((cy == b - 1 - i && cx < x + 1) || (cy == b + h + i && cx < x)) {
                    s[idx(sym(cx - bi, wi), sym(cy - bi, hi), wi)]
                } else {
                    0u8
                } by {
                    lemma_idx_bounds(cx, cy, wdi, hdi);
                    if !(cx == xi && cy == ty) {
                        crate::seedfill::lemma_pixel_distinct(cx, cy, xi, ty, wdi, hdi);
                        assert(d@[idx(cx, cy, wdi)] == d1[idx(cx, cy, wdi)]);
                    } else {
                        assert(d1[idx(xi, bi + i, wdi)] == s[idx(sym(xi - bi, wi), sym(i as int, hi), wi)]);
                    }
                }
            }
            let bv = d[src_bot + x];
            let ghost d2 = d@;
            d.set(dst_bot + x, bv);
            proof {
                assert forall|cx: int, cy: int| 0 <= cx < wd && 0 <= cy < hd implies #[trigger] d@[idx(cx, cy, wdi)] == if (b - i <= cy < b
                    + h + i) || ((cy == b - 1 - i || cy == b + h + i) && cx < x + 1) {
                    s[idx(sym(cx - bi, wi), sym(cy - bi, hi), wi)]
                } else {
                    0u8
                } by {
                    lemma_idx_bounds(cx, cy, wdi, hdi);
                    if !(cx == xi && cy == by_) {
                        crate::seedfill::lemma_pixel_distinct(cx, cy, xi, by_, wdi, hdi);
                        assert(d@[idx(cx, cy, wdi)] == d2[idx(cx, cy, wdi)]);
                    } else {
                        assert(sym(h + i as int, hi) == sym(h - 1 - i as int, hi));
                        assert(d2[idx(xi, bi + hi - 1 - i, wdi)] == s[idx(sym(xi - bi, wi), sym(hi - 1 - i, hi), wi)]);
                    }
                }
            }
            x += 1;
        }
        i += 1;
    }
    proof {
        assert forall|x: int, y: int| 0 <= x < wd && 0 <= y < hd implies d@[idx(x, y, wdi)] == mirrored(s, wi, hi, bi, x, y) by {}
    }
    (wd, hd, d)
}

/// `2^32`, the modulus of `u32` arithmetic.
pub open spec fn two32() -> int {
    0x1_0000_0000
}

/// Sum of row `y` of the `w`-wide image `src` over columns `0..=x`.
pub open spec fn row_prefix(src: Seq<u8>, w: int, x: int, y: int) -> int
    decreases x + 1,
{
    if x < 0 {
        0
    } else {
        row_prefix(src, w, x - 1, y) + src[idx(x, y, w)]
    }
}

/// Sum of the `w`-wide image `src` over the rectangle of columns `0..=x`
/// and rows `0..=y`.
pub open spec fn rect_sum(src: Seq<u8>, w: int, x: int, y: int) -> int
    decreases y + 1,
{
    if y < 0 {
        0
    } else {
        rect_sum(src, w, x, y - 1) + row_prefix(src, w, x, y)
    }
}

/// `u32` wrapping addition is addition modulo `2^32`.
proof fn lemma_wrapping_add(x: u32, y: u32)
    ensures
        x.wrapping_add(y) as int == (x + y) % two32(),
{
    if x + y > u32::MAX {
        lemma_small_mod((x + y - two32()) as nat, two32() as nat);
        lemma_mod_sub_multiples_vanish(x + y, two32());
    } else {
        lemma_small_mod((x + y) as nat, two32() as nat);
    }
}

/// `u32` wrapping subtraction is subtraction modulo `2^32`.
proof fn lemma_wrapping_sub(x: u32, y: u32)
    ensures
        x.wrapping_sub(y) as int == (x - y) % two32(),
{
    if x - y < 0 {
        lemma_small_mod((x - y + two32()) as nat, two32() as nat);
        lemma_mod_multiples_vanish(1, x - y, two32());
    } else {
        lemma_small_mod((x - y) as nat, two32() as nat);
    }
}

/// The summed-area recurrence, taken modulo `2^32`.
proof fn lemma_rect_step(src: Seq<u8>, w: int, x: int, y: int, a: int, b: int, c: int)
    requires
        0 <= x,
        0 <= y,
        a == rect_sum(src, w, x - 1, y) % two32(),
        b == rect_sum(src, w, x, y - 1) % two32(),
        c == rect_sum(src, w, x - 1, y - 1) % two32(),
    ensures
        ((((src[idx(x, y, w)] + a) % two32() + b) % two32() - c) % two32()) == rect_sum(src, w, x, y) % two32(),
{
    let m = two32();
    let v = src[idx(x, y, w)] as int;
    let ra = rect_sum(src, w, x - 1, y);
    let rb = rect_sum(src, w, x, y - 1);
    let rc = rect_sum(src, w, x - 1, y - 1);
    assert(rect_sum(src, w, x, y) == rb + row_prefix(src, w, x, y));
    assert(ra == rc + row_prefix(src, w, x - 1, y));
    assert(row_prefix(src, w, x, y) == row_prefix(src, w, x - 1, y) + v);
    assert(rect_sum(src, w, x, y) == v + ra + rb - rc);
    lemma_small_mod(v as nat, m as nat);
    lemma_add_mod_noop(v, ra, m);
    lemma_add_mod_noop(v + ra, rb, m);
    lemma_sub_mod_noop(v + ra + rb, rc, m);
}

/// The summed-area table of the `w × h` image `src`,
/// modulo `2^32` (`u32` wrapping arithmetic): entry `(x, y)` is the sum of
/// `src` over columns `0..=x` and rows `0..=y`.
pub fn blockconv_accum(src: &[u8], w: usize, h: usize) -> (a: Vec<u32>)
    requires
        src@.len() == w * h,
    ensures
        a@.len() == w * h,
        forall|x: int, y: int| 0 <= x < w && 0 <= y < h ==> #[trigger] a@[idx(x, y, w as int)] as int == rect_sum(src@, w as int, x, y) % two32(),
{
    let ghost sq = src@;
    let ghost wi = w as int;
    let ghost hi = h as int;
    proof {
        assert(src@.len() == src.len());
    }
    let n = w * h;
    let mut a: Vec<u32> = Vec::with_capacity(n);
    if h == 0 {
        return a;
    }
    let mut j: usize = 0;
    while j < w
        invariant
            sq == src@,
            wi == w as int,
            hi == h as int,
            sq.len() == w * h,
            h >= 1,
            j <= w,
            a@.len() == j,
            forall|x: int| 0 <= x < j ==> #[trigger] a@[x] as int == rect_sum(sq, wi, x, 0) % two32(),
        decreases w - j,
    {
        proof {
            lemma_idx_bounds(j as int, 0, wi, hi);
        }
        let v = src[j] as u32;
        let cell = if j == 0 {
            v
        } else {
            a[j - 1].wrapping_add(v)
        };
        proof {
            let x = j as int;
            assert(rect_sum(sq, wi, x, -1) == 0);
            assert(rect_sum(sq, wi, x, 0) == row_prefix(sq, wi, x, 0));
            assert(row_prefix(sq, wi, x, 0) == row_prefix(sq, wi, x - 1, 0) + sq[idx(x, 0, wi)]);
            if j == 0 {
                assert(row_prefix(sq, wi, -1, 0) == 0);
                lemma_small_mod(v as nat, two32() as nat);
            } else {
                assert(rect_sum(sq, wi, x - 1, -1) == 0);
                assert(rect_sum(sq, wi, x - 1, 0) == row_prefix(sq, wi, x - 1, 0));
                lemma_wrapping_add(a@[x - 1], v);
                lemma_add_mod_noop(row_prefix(sq, wi, x - 1, 0), v as int, two32());
                lemma_small_mod(v as nat, two32() as nat);
            }
        }
        a.push(cell);
        j += 1;
    }
    let mut i: usize = 1;
    while i < h
        invariant
            sq == src@,
            wi == w as int,
            hi == h as int,
            sq.len() == w * h,
            n == w * h,
            1 <= i <= h,
            a@.len() == i * w,
            forall|x: int, y: int| 0 <= x < w && 0 <= y < i ==> #[trigger] a@[idx(x, y, wi)] as int == rect_sum(sq, wi, x, y) % two32(),
        decreases h - i,
    {
        proof {
            crate::grid::lemma_mul_mono(i as int, w as int, h as int, w as int);
            assert(h * w == w * h) by (nonlinear_arith);
            assert((i - 1) * w + w == i * w) by (nonlinear_arith);
        }
        let row = i * w;
        let prow = (i - 1) * w;
        let mut j: usize = 0;
        while j < w
            invariant
                sq == src@,
                wi == w as int,
                hi == h as int,
                sq.len() == w * h,
                n == w * h,
                1 <= i < h,
                row == i * w,
                prow == (i - 1) * w,
                prow + w == row,
                j <= w,
                a@.len() == i * w + j,
                forall|x: int, y: int| 0 <= x < w && 0 <= y < i ==> #[trigger] a@[idx(x, y, wi)] as int == rect_sum(sq, wi, x, y) % two32(),
                forall|x: int| 0 <= x < j ==> #[trigger] a@[idx(x, i as int, wi)] as int == rect_sum(sq, wi, x, i as int) % two32(),
            decreases w - j,
        {
            proof {
                lemma_idx_bounds(j as int, i as int, wi, hi);
                lemma_idx_bounds(j as int, i - 1, wi, hi);
            }
            let v = src[row + j] as u32;
            let ghost x = j as int;
            let ghost y = i as int;
            let cell = if j == 0 {
                v.wrapping_add(a[prow])
            } else {
                v.wrapping_add(a[row + j - 1]).wrapping_add(a[prow + j]).wrapping_sub(a[prow + j - 1])
            };
            proof {
                assert(idx(x, y, wi) == row + j);
                assert(idx(x, y - 1, wi) == prow + j);
                if j == 0 {
                    assert(row_prefix(sq, wi, -1, y) == 0);
                    assert(row_prefix(sq, wi, 0, y) == sq[idx(0, y, wi)]);
                    assert(rect_sum(sq, wi, 0, y) == rect_sum(sq, wi, 0, y - 1) + sq[idx(0, y, wi)]);
                    lemma_wrapping_add(v, a@[prow as int]);
                    lemma_small_mod(v as nat, two32() as nat);
                    lemma_add_mod_noop(v as int, rect_sum(sq, wi, 0, y - 1), two32());
                } else {
                    assert(idx(x - 1, y, wi) == row + j - 1);
                    assert(idx(x - 1, y - 1, wi) == prow + j - 1);
                    let ra = a@[row + j - 1];
                    let rb = a@[prow + j];
                    let rc = a@[prow + j - 1];
                    lemma_wrapping_add(v, ra);
                    lemma_wrapping_add(v.wrapping_add(ra), rb);
                    lemma_wrapping_sub(v.wrapping_add(ra).wrapping_add(rb), rc);
                    lemma_rect_step(sq, wi, x, y, ra as int, rb as int, rc as int);
                }
            }
            let ghost a_before = a@;
            a.push(cell);
            proof {
                assert(wi * (i as int) == (i as int) * wi) by (nonlinear_arith);
                assert forall|x2: int, y2: int| 0 <= x2 < w && 0 <= y2 < i implies #[trigger] a@[idx(x2, y2, wi)] as int == rect_sum(sq, wi, x2, y2)
                    % two32() by {
                    lemma_idx_bounds(x2, y2, wi, i as int);
                    assert(a@[idx(x2, y2, wi)] == a_before[idx(x2, y2, wi)]);
                }
                assert forall|x2: int| 0 <= x2 < j + 1 implies #[trigger] a@[idx(x2, i as int, wi)] as int == rect_sum(sq, wi, x2, i as int)
                    % two32() by {
                    if x2 < j {
                        assert(a@[idx(x2, i as int, wi)] == a@.drop_last()[idx(x2, i as int, wi)]);
                    }
                }
            }
            j += 1;
        }
        proof {
            assert((i + 1) * w == i * w + w) by (nonlinear_arith);
            assert forall|x: int, y: int| 0 <= x < w && 0 <= y < i + 1 implies #[trigger] a@[idx(x, y, wi)] as int == rect_sum(sq, wi, x, y)
                % two32() by {
                if y == i {
                    assert(a@[idx(x, i as int, wi)] as int == rect_sum(sq, wi, x, i as int) % two32());
                }
            }
        }
        i += 1;
    }
    proof {
        assert(h * w == w * h) by (nonlinear_arith);
        assert forall|x: int, y: int| 0 <= x < w && 0 <= y < h implies #[trigger] a@[idx(x, y, wi)] as int == rect_sum(sq, wi, x, y) % two32() by {
            if y == 0 {
                assert(idx(x, 0, wi) == x);
            }
        }
    }
    a
}

/// The window guard shared by the local binarizers: the buffer is `w·h`
/// long, the half-size is at least 2, and the image holds a full window
/// plus its border in each direction (`w, h >= 2·whsize + 3`).
pub fn window_fits(len: usize, w: usize, h: usize, whsize: usize) -> (ok: bool)
    ensures
        ok == (len == w * h && whsize >= 2 && w >= 2 * whsize + 3 && h >= 2 * whsize + 3),
{
    let size_ok = match w.checked_mul(h) {
        Some(n) => n == len,
        None => false,
    };
    if !size_ok || whsize < 2 {
        return false;
    }
    match whsize.checked_mul(2) {
        Some(d) => match d.checked_add(3) {
            Some(m) => w >= m && h >= m,
            None => false,
        },
        None => false,
    }
}

} // verus!
