//! Rank-filtered 2× binary reduction, its cascade, and power-of-2 binary
//! expansion by pixel replication.
use vstd::prelude::*;
use crate::grid::{is_ink, ink_byte, idx, lemma_idx_bounds, lemma_idx_decompose, lemma_idx_split, lemma_mul_mono};

verus! {

/// `1` when the byte is ink, else `0`.
pub open spec fn ink_count(b: u8) -> int {
    if is_ink(b) { 1 } else { 0 }
}

/// Number of ink pixels in the 2×2 block whose upper-left pixel is
/// `(x0, y0)`.
pub open spec fn block_count(b: Seq<u8>, w: int, x0: int, y0: int) -> int {
    ink_count(b[idx(x0, y0, w)]) + ink_count(b[idx(x0 + 1, y0, w)]) + ink_count(
        b[idx(x0, y0 + 1, w)],
    ) + ink_count(b[idx(x0 + 1, y0 + 1, w)])
}

/// Destination pixel `(xd, yd)` of a rank reduction: ON iff at least
/// `level` pixels of its 2×2 source block are ON.
pub open spec fn reduce_pixel(b: Seq<u8>, w: int, xd: int, yd: int, level: int) -> u8 {
    ink_byte(block_count(b, w, 2 * xd, 2 * yd) >= level)
}

/// The `(w/2) × (h/2)` rank-reduced image.
pub open spec fn reduce_image(b: Seq<u8>, w: int, h: int, level: int) -> Seq<u8> {
    Seq::new(
        ((h / 2) * (w / 2)) as nat,
        |i: int| reduce_pixel(b, w, i % (w / 2), i / (w / 2), level),
    )
}

/// When a single rank reduction is defined: `level ∈ 1..=4`, at least two
/// rows, at least two columns.
pub open spec fn reduce_ok(w: int, h: int, level: int) -> bool {
    1 <= level <= 4 && h > 1 && w >= 2
}

/// The result of one rank reduction: the image with its dimensions, or
/// `None` when it is undefined.
pub open spec fn reduce_spec(b: Seq<u8>, w: int, h: int, level: int) -> Option<(Seq<u8>, int, int)> {
    if reduce_ok(w, h, level) {
        Some((reduce_image(b, w, h, level), w / 2, h / 2))
    } else {
        None
    }
}

/// The cascade from stage `k` on: stop at the end or at a `0` level,
/// otherwise reduce and continue; a failing stage fails the cascade.
pub open spec fn cascade_from(b: Seq<u8>, w: int, h: int, levels: Seq<u32>, k: int) -> Option<
    (Seq<u8>, int, int),
>
    decreases levels.len() - k,
{
    if k < 0 || k >= levels.len() || levels[k] == 0 {
        Some((b, w, h))
    } else {
        match reduce_spec(b, w, h, levels[k] as int) {
            None => None,
            Some(r) => cascade_from(r.0, r.1, r.2, levels, k + 1),
        }
    }
}

/// A cascade is rejected outright when any level exceeds 4.
pub open spec fn cascade_spec(b: Seq<u8>, w: int, h: int, levels: Seq<u32>) -> Option<
    (Seq<u8>, int, int),
> {
    if exists|i: int| 0 <= i < levels.len() && levels[i] > 4 {
        None
    } else {
        cascade_from(b, w, h, levels, 0)
    }
}

/// The `f·w × f·h` replicated image: every source pixel becomes an
/// `f × f` block, normalised to `0` / `255`.
pub open spec fn expand_image(b: Seq<u8>, w: int, h: int, f: int) -> Seq<u8> {
    Seq::new(
        ((h * f) * (w * f)) as nat,
        |i: int| ink_byte(is_ink(b[idx((i % (w * f)) / f, (i / (w * f)) / f, w)])),
    )
}

/// Factors accepted by the replicating expansion besides the copy factor 1.
pub open spec fn is_expand_factor(f: int) -> bool {
    f == 2 || f == 4 || f == 8 || f == 16
}

/// The expansion result: factor 1 copies the buffer unchanged, the other
/// powers of two replicate, anything else is rejected.
pub open spec fn expand_spec(b: Seq<u8>, w: int, h: int, f: int) -> Option<(Seq<u8>, int, int)> {
    if f == 1 {
        Some((b, w, h))
    } else if is_expand_factor(f) {
        Some((expand_image(b, w, h, f), w * f, h * f))
    } else {
        None
    }
}

/// The image normalised to the canonical `0` / `255` bytes.
pub open spec fn normalized(b: Seq<u8>, n: int) -> Seq<u8> {
    Seq::new(n as nat, |i: int| ink_byte(is_ink(b[i])))
}

proof fn lemma_expanded_block_pixel(b: Seq<u8>, w: int, h: int, xd: int, yd: int, dx: int, dy: int)
    requires
        w >= 1,
        h >= 1,
        0 <= xd < w,
        0 <= yd < h,
        0 <= dx < 2,
        0 <= dy < 2,
    ensures
        0 <= idx(2 * xd + dx, 2 * yd + dy, 2 * w) < (h * 2) * (w * 2),
        expand_image(b, w, h, 2)[idx(2 * xd + dx, 2 * yd + dy, 2 * w)] == ink_byte(
            is_ink(b[idx(xd, yd, w)]),
        ),
{
    let x = 2 * xd + dx;
    let y = 2 * yd + dy;
    lemma_idx_bounds(x, y, 2 * w, 2 * h);
    assert((2 * w) * (2 * h) == (h * 2) * (w * 2)) by (nonlinear_arith);
    lemma_idx_decompose(x, y, 2 * w);
    assert(x / 2 == xd && y / 2 == yd);
    assert(w * 2 == 2 * w);
}

/// Law: expanding by a factor `f` of 2, 4, 8 or 16 gives an `f·w × f·h`
/// image whose pixel `(x, y)` is ink exactly when source pixel
/// `(x / f, y / f)` is ink, and background (`255`) otherwise; factor 1
/// returns the buffer itself.
pub proof fn lemma_expand_replicates(b: Seq<u8>, w: int, h: int, f: int, x: int, y: int)
    requires
        w >= 1,
        h >= 1,
        b.len() >= w * h,
        f == 2 || f == 4 || f == 8 || f == 16,
        0 <= x < w * f,
        0 <= y < h * f,
    ensures
        expand_spec(b, w, h, 1) == Some((b, w, h)),
        ({
            let r = expand_spec(b, w, h, f)->0;
            &&& expand_spec(b, w, h, f) is Some
            &&& r.1 == w * f
            &&& r.2 == h * f
            &&& r.0.len() == (w * f) * (h * f)
            &&& r.0[y * (w * f) + x] == if b[(y / f) * w + x / f] == 0 { 0u8 } else { 255u8 }
        }),
{
    lemma_idx_bounds(x, y, w * f, h * f);
    lemma_idx_decompose(x, y, w * f);
    assert((h * f) * (w * f) == (w * f) * (h * f)) by (nonlinear_arith);
}

/// Law: each pixel of a rank reduction is ink exactly when enough pixels of
/// its 2×2 source block — the pixels at columns `2·xd`, `2·xd + 1` and rows
/// `2·yd`, `2·yd + 1` — are ink: any one of them at level 1, any two at
/// level 2, any three at level 3, all four at level 4; otherwise the pixel
/// is background (`255`). The result is `(w/2) × (h/2)`.
pub proof fn lemma_reduce_rank_pixels(b: Seq<u8>, w: int, h: int, level: int, xd: int, yd: int)
    requires
        1 <= level <= 4,
        w >= 2,
        h >= 2,
        b.len() >= w * h,
        0 <= xd < w / 2,
        0 <= yd < h / 2,
    ensures
        ({
            let r = reduce_spec(b, w, h, level)->0;
            let out = r.0[yd * (w / 2) + xd];
            let a = b[(2 * yd) * w + 2 * xd] == 0;
            let c = b[(2 * yd) * w + 2 * xd + 1] == 0;
            let d = b[(2 * yd + 1) * w + 2 * xd] == 0;
            let e = b[(2 * yd + 1) * w + 2 * xd + 1] == 0;
            &&& reduce_spec(b, w, h, level) is Some
            &&& r.1 == w / 2
            &&& r.2 == h / 2
            &&& r.0.len() == (w / 2) * (h / 2)
            &&& (out == 0 || out == 255)
            &&& level == 1 ==> (out == 0 <==> (a || c || d || e))
            &&& level == 2 ==> (out == 0 <==> ((a && c) || (a && d) || (a && e) || (c && d) || (c && e) || (d && e)))
            &&& level == 3 ==> (out == 0 <==> ((a && c && d) || (a && c && e) || (a && d && e) || (c && d && e)))
            &&& level == 4 ==> (out == 0 <==> (a && c && d && e))
        }),
{
    let wd = w / 2;
    let hd = h / 2;
    lemma_idx_bounds(xd, yd, wd, hd);
    lemma_idx_decompose(xd, yd, wd);
    assert(hd * wd == wd * hd) by (nonlinear_arith);
    let i = yd * wd + xd;
    assert(i % wd == xd && i / wd == yd);
}

/// Law: replicating an image by 2 and rank-reducing the result at any valid
/// level gives the starting image back (normalised to `0` / `255`).
pub proof fn lemma_reduce_undoes_expand2(b: Seq<u8>, w: int, h: int, level: int)
    requires
        w >= 1,
        h >= 1,
        b.len() >= w * h,
        1 <= level <= 4,
    ensures
        reduce_spec(expand_image(b, w, h, 2), 2 * w, 2 * h, level) == Some(
            (normalized(b, h * w), w, h),
        ),
{
    let e = expand_image(b, w, h, 2);
    assert((2 * w) / 2 == w && (2 * h) / 2 == h);
    let r = reduce_image(e, 2 * w, 2 * h, level);
    assert forall|i: int| 0 <= i < h * w implies r[i] == normalized(b, h * w)[i] by {
        assert(w * h == h * w) by (nonlinear_arith);
        lemma_idx_split(i, w, h);
        let xd = i % w;
        let yd = i / w;
        lemma_expanded_block_pixel(b, w, h, xd, yd, 0, 0);
        lemma_expanded_block_pixel(b, w, h, xd, yd, 1, 0);
        lemma_expanded_block_pixel(b, w, h, xd, yd, 0, 1);
        lemma_expanded_block_pixel(b, w, h, xd, yd, 1, 1);
        assert(idx(xd, yd, w) == i);
        assert(2 * xd + 1 == (2 * xd) + 1 && 2 * yd + 1 == (2 * yd) + 1);
    }
    assert(r =~= normalized(b, h * w));
}

/// 2× rank-threshold binary reduction: destination pixel ON iff at least
/// `level` of its 2×2 source block are ON; an odd trailing row or column is
/// dropped. `None` when `level ∉ 1..=4`, `h ≤ 1` or `w < 2`.
pub fn reduce_rank_binary2(binary: &[u8], w: usize, h: usize, level: u32) -> (r: Option<
    (Vec<u8>, usize, usize),
>)
    requires
        binary@.len() >= w * h,
        w * h <= usize::MAX,
    ensures
        r matches Some((out, wd, hd)) ==> reduce_spec(binary@, w as int, h as int, level as int)
            == Some((out@, wd as int, hd as int)),
        r is None ==> reduce_spec(binary@, w as int, h as int, level as int) is None,
{
    if !(1 <= level && level <= 4) || h <= 1 || w < 2 {
        return None;
    }
    let wd = w / 2;
    let hd = h / 2;
    let mut out: Vec<u8> = Vec::new();
    let ghost b = binary@;
    let mut yd: usize = 0;
    while yd < hd
        invariant
            b == binary@,
            b.len() >= w * h,
            w * h <= usize::MAX,
            wd == w / 2,
            hd == h / 2,
            w >= 2,
            h >= 2,
            1 <= level <= 4,
            yd <= hd,
            out@.len() == yd * wd,
            forall|i: int|
                0 <= i < out@.len() ==> out@[i] == reduce_pixel(b, w as int, i % (wd as int), i / (wd as int), level as int),
        decreases hd - yd,
    {
        let y0 = 2 * yd;
        let mut xd: usize = 0;
        while xd < wd
            invariant
                b == binary@,
                b.len() >= w * h,
                w * h <= usize::MAX,
                wd == w / 2,
                hd == h / 2,
                w >= 2,
                h >= 2,
                1 <= level <= 4,
                yd < hd,
                y0 == 2 * yd,
                xd <= wd,
                out@.len() == yd * wd + xd,
                forall|i: int|
                    0 <= i < out@.len() ==> out@[i] == reduce_pixel(b, w as int, i % (wd as int), i / (wd as int), level as int),
            decreases wd - xd,
        {
            let x0 = 2 * xd;
            proof {
                lemma_idx_bounds(x0 + 1, y0 + 1, w as int, h as int);
                lemma_idx_bounds(x0 as int, y0 as int, w as int, h as int);
                lemma_idx_decompose(xd as int, yd as int, wd as int);
            }
            let mut count = 0u32;
            if binary[y0 * w + x0] == 0 {
                count += 1;
            }
            if binary[y0 * w + x0 + 1] == 0 {
                count += 1;
            }
            if binary[(y0 + 1) * w + x0] == 0 {
                count += 1;
            }
            if binary[(y0 + 1) * w + x0 + 1] == 0 {
                count += 1;
            }
            let v: u8 = if count >= level { 0 } else { 255 };
            assert(v == reduce_pixel(b, w as int, xd as int, yd as int, level as int));
            out.push(v);
            xd += 1;
        }
        proof {
            assert(yd * wd + wd == (yd + 1) * wd) by (nonlinear_arith);
        }
        yd += 1;
    }
    proof {
        assert(out@ =~= reduce_image(b, w as int, h as int, level as int));
    }
    Some((out, wd, hd))
}

/// Up to four cascaded 2× rank reductions: a `0` level ends the cascade
/// (so a leading `0` returns an unreduced copy), any level above 4 is
/// rejected, and a stage whose input is too small fails the cascade.
pub fn reduce_rank_binary_cascade(binary: &[u8], w: usize, h: usize, levels: [u32; 4]) -> (r: Option<
    (Vec<u8>, usize, usize),
>)
    requires
        binary@.len() >= w * h,
        w * h <= usize::MAX,
    ensures
        r matches Some((out, wd, hd)) ==> cascade_spec(binary@, w as int, h as int, levels@)
            == Some((out@, wd as int, hd as int)),
        r is None ==> cascade_spec(binary@, w as int, h as int, levels@) is None,
{
    let mut k: usize = 0;
    while k < 4
        invariant
            k <= 4,
            forall|i: int| 0 <= i < k ==> levels@[i] <= 4,
        decreases 4 - k,
    {
        if levels[k] > 4 {
            return None;
        }
        k += 1;
    }
    let ghost lv = levels@;
    let mut cur = copy_bytes(binary);
    let mut cw = w;
    let mut ch = h;
    let mut k: usize = 0;
    while k < 4
        invariant
            lv == levels@,
            lv.len() == 4,
            forall|i: int| 0 <= i < 4 ==> lv[i] <= 4,
            k <= 4,
            cur@.len() >= cw * ch,
            cw * ch <= usize::MAX,
            cascade_from(binary@, w as int, h as int, lv, 0) == cascade_from(cur@, cw as int, ch as int, lv, k as int),
        ensures
            cascade_from(binary@, w as int, h as int, lv, 0) == Some((cur@, cw as int, ch as int)),
        decreases 4 - k,
    {
        let level = levels[k];
        if level == 0 {
            break;
        }
        match reduce_rank_binary2(&cur, cw, ch, level) {
            None => {
                return None;
            },
            Some((next, nw, nh)) => {
                proof {
                    assert(nw == cw / 2 && nh == ch / 2);
                    lemma_mul_mono(nw as int, nh as int, cw as int, ch as int);
                }
                cur = next;
                cw = nw;
                ch = nh;
            },
        }
        k += 1;
    }
    Some((cur, cw, ch))
}

/// Power-of-2 binary expansion by pixel replication: factor `1` copies the
/// buffer; factors `2, 4, 8, 16` turn each source pixel into an
/// `f × f` block; any other factor is rejected.
pub fn expand_binary_power2(binary: &[u8], w: usize, h: usize, factor: usize) -> (r: Option<
    (Vec<u8>, usize, usize),
>)
    requires
        binary@.len() >= w * h,
        w * h <= usize::MAX,
        is_expand_factor(factor as int) ==> w * factor <= usize::MAX && h * factor <= usize::MAX
            && (h * factor) * (w * factor) <= usize::MAX,
    ensures
        r matches Some((out, wd, hd)) ==> expand_spec(binary@, w as int, h as int, factor as int)
            == Some((out@, wd as int, hd as int)),
        r is None ==> expand_spec(binary@, w as int, h as int, factor as int) is None,
{
    if factor == 1 {
        return Some((copy_bytes(binary), w, h));
    }
    if !(factor == 2 || factor == 4 || factor == 8 || factor == 16) {
        return None;
    }
    proof {
        lemma_mul_mono(0, 0, w as int, factor as int);
        lemma_mul_mono(0, 0, h as int, factor as int);
        if w > 0 && h > 0 {
            lemma_mul_mono(h as int, 1, h as int, factor as int);
            lemma_mul_mono(w as int, 1, w as int, factor as int);
            lemma_mul_mono(h * factor, 1, h * factor, w * factor);
            lemma_mul_mono(1, w * factor, h * factor, w * factor);
        }
    }
    let wd = w * factor;
    let hd = h * factor;
    let ghost b = binary@;
    let mut out: Vec<u8> = Vec::new();
    let mut yy: usize = 0;
    while yy < hd
        invariant
            b == binary@,
            b.len() >= w * h,
            w * h <= usize::MAX,
            hd * wd <= usize::MAX,
            wd == w * factor,
            hd == h * factor,
            is_expand_factor(factor as int),
            yy <= hd,
            out@.len() == yy * wd,
            forall|i: int|
                0 <= i < out@.len() ==> out@[i] == ink_byte(
                    is_ink(b[idx((i % (wd as int)) / (factor as int), (i / (wd as int)) / (factor as int), w as int)]),
                ),
        decreases hd - yy,
    {
        let mut xx: usize = 0;
        while xx < wd
            invariant
                b == binary@,
                b.len() >= w * h,
                w * h <= usize::MAX,
                hd * wd <= usize::MAX,
                wd == w * factor,
                hd == h * factor,
                is_expand_factor(factor as int),
                yy < hd,
                xx <= wd,
                out@.len() == yy * wd + xx,
                forall|i: int|
                    0 <= i < out@.len() ==> out@[i] == ink_byte(
                        is_ink(b[idx((i % (wd as int)) / (factor as int), (i / (wd as int)) / (factor as int), w as int)]),
                    ),
            decreases wd - xx,
        {
            let sy = yy / factor;
            let sx = xx / factor;
            proof {
                assert(factor * h == h * factor && factor * w == w * factor) by (nonlinear_arith);
                lemma_idx_split(yy as int, factor as int, h as int);
                lemma_idx_split(xx as int, factor as int, w as int);
                lemma_idx_bounds(sx as int, sy as int, w as int, h as int);
                lemma_idx_decompose(xx as int, yy as int, wd as int);
                lemma_idx_bounds(xx as int, yy as int, wd as int, hd as int);
            }
            let v: u8 = if binary[sy * w + sx] == 0 { 0 } else { 255 };
            out.push(v);
            xx += 1;
        }
        proof {
            assert(yy * wd + wd == (yy + 1) * wd) by (nonlinear_arith);
        }
        yy += 1;
    }
    proof {
        assert(out@ =~= expand_image(b, w as int, h as int, factor as int));
    }
    Some((out, wd, hd))
}

/// An owned copy of a byte buffer.
pub fn copy_bytes(src: &[u8]) -> (v: Vec<u8>)
    ensures
        v@ == src@,
{
    let mut v: Vec<u8> = Vec::with_capacity(src.len());
    let mut i: usize = 0;
    while i < src.len()
        invariant
            i <= src@.len(),
            v@ == src@.take(i as int),
        decreases src@.len() - i,
    {
        v.push(src[i]);
        i += 1;
        proof {
            assert(src@.take(i as int) =~= src@.take(i - 1).push(src@[i - 1]));
        }
    }
    proof {
        assert(src@.take(src@.len() as int) =~= src@);
    }
    v
}

} // verus!
