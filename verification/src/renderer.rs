//! Output rendering helpers: escaping text for hOCR (XHTML) output,
//! converting bottom-up page boxes into top-down image boxes, and the
//! blank-row runs that paragraph-gap detection measures.
use vstd::prelude::*;
use crate::grid::{idx, lemma_idx_bounds};

verus! {

/// What one character becomes in hOCR text: `<`, `>`, `&`, `"` and `'`
/// turn into their character references, anything else stays.
pub open spec fn hocr_escape_char(c: char) -> Seq<char> {
    if c == '<' {
        seq!['&', 'l', 't', ';']
    } else if c == '>' {
        seq!['&', 'g', 't', ';']
    } else if c == '&' {
        seq!['&', 'a', 'm', 'p', ';']
    } else if c == '"' {
        seq!['&', 'q', 'u', 'o', 't', ';']
    } else if c == '\'' {
        seq!['&', '#', '3', '9', ';']
    } else {
        seq![c]
    }
}

/// The hOCR escape of a character sequence, character by character.
pub open spec fn hocr_escape_spec(s: Seq<char>) -> Seq<char>
    decreases s.len(),
{
    if s.len() == 0 {
        Seq::empty()
    } else {
        hocr_escape_spec(s.drop_last()) + hocr_escape_char(s.last())
    }
}

/// Escape `<`, `>`, `&`, `"`, `'` for hOCR text and attribute content
/// (`HOcrEscape`); every other character passes through unchanged.
pub fn hocr_escape(text: &str) -> (out: String)
    ensures
        out@ == hocr_escape_spec(text@),
{
    let n = text.unicode_len();
    let mut out = String::new();
    let mut i: usize = 0;
    while i < n
        invariant
            n == text@.len(),
            i <= n,
            out@ == hocr_escape_spec(text@.subrange(0, i as int)),
        decreases n - i,
    {
        let ch = text.get_char(i);
        let ghost before = out@;
        if ch == '<' {
            out.append("&lt;");
        } else if ch == '>' {
            out.append("&gt;");
        } else if ch == '&' {
            out.append("&amp;");
        } else if ch == '"' {
            out.append("&quot;");
        } else if ch == '\'' {
            out.append("&#39;");
        } else {
            out.append(text.substring_char(i, i + 1));
        }
        proof {
            reveal_strlit("&lt;");
            reveal_strlit("&gt;");
            reveal_strlit("&amp;");
            reveal_strlit("&quot;");
            reveal_strlit("&#39;");
            let pre = text@.subrange(0, i + 1);
            assert(pre.drop_last() =~= text@.subrange(0, i as int));
            assert(pre.last() == ch);
            assert(out@ =~= before + hocr_escape_char(ch));
        }
        i += 1;
    }
    proof {
        assert(text@.subrange(0, n as int) =~= text@);
    }
    out
}

/// Law: escaped text holds no `<`, `>`, `"` or `'`, so it can stand in
/// hOCR element content and attribute values.
pub proof fn lemma_escape_has_no_markup(s: Seq<char>)
    ensures
        forall|i: int| 0 <= i < hocr_escape_spec(s).len() ==> {
            let c = #[trigger] hocr_escape_spec(s)[i];
            c != '<' && c != '>' && c != '"' && c != '\''
        },
    decreases s.len(),
{
    if s.len() > 0 {
        lemma_escape_has_no_markup(s.drop_last());
        let pre = hocr_escape_spec(s.drop_last());
        let tail = hocr_escape_char(s.last());
        assert(hocr_escape_spec(s) == pre + tail);
        assert forall|i: int| 0 <= i < hocr_escape_spec(s).len() implies {
            let c = #[trigger] hocr_escape_spec(s)[i];
            c != '<' && c != '>' && c != '"' && c != '\''
        } by {
            if i < pre.len() {
                assert(hocr_escape_spec(s)[i] == pre[i]);
            } else {
                assert(hocr_escape_spec(s)[i] == tail[i - pre.len()]);
            }
        }
    }
}

/// `v` raised to at least `lo`, then lowered to at most `hi`.
pub open spec fn clip_spec(v: int, lo: int, hi: int) -> int {
    let up = if v < lo { lo } else { v };
    if up > hi { hi } else { up }
}

/// Clamp `v` into `[lo, hi]` (`ClipToRange`): `max(v, lo)` then `min(.., hi)`,
/// so `hi` wins when `lo > hi`.
pub fn clip_to_range(v: i32, lo: i32, hi: i32) -> (r: i32)
    ensures
        r == clip_spec(v as int, lo as int, hi as int),
{
    let up = if v < lo { lo } else { v };
    if up > hi { hi } else { up }
}

/// Law: clamping keeps a value already in `[lo, hi]`, moves one below `lo`
/// up to `lo` and one above `hi` down to `hi`; when `lo > hi` the result is
/// `hi`.
pub proof fn lemma_clip_clamps(v: int, lo: int, hi: int)
    ensures
        lo <= v <= hi ==> clip_spec(v, lo, hi) == v,
        lo <= hi && v < lo ==> clip_spec(v, lo, hi) == lo,
        lo <= hi && v > hi ==> clip_spec(v, lo, hi) == hi,
        lo > hi ==> clip_spec(v, lo, hi) == hi,
{
}

/// The union of bottom-up `(left, bottom, right, top)` boxes
/// (`TBOX::bounding_union`): the least left and bottom and the greatest right
/// and top; no box gives `(i32::MAX, i32::MAX, i32::MIN, i32::MIN)`.
pub fn union_boxes(boxes: &[(i32, i32, i32, i32)]) -> (r: (i32, i32, i32, i32))
    ensures
        forall|k: int|
            0 <= k < boxes@.len() ==> r.0 <= #[trigger] boxes@[k].0 && r.1 <= boxes@[k].1 && r.2 >= boxes@[k].2 && r.3 >= boxes@[k].3,
        boxes@.len() == 0 ==> r == (i32::MAX, i32::MAX, i32::MIN, i32::MIN),
        boxes@.len() > 0 ==> {
            &&& exists|k: int| 0 <= k < boxes@.len() && #[trigger] boxes@[k].0 == r.0
            &&& exists|k: int| 0 <= k < boxes@.len() && #[trigger] boxes@[k].1 == r.1
            &&& exists|k: int| 0 <= k < boxes@.len() && #[trigger] boxes@[k].2 == r.2
            &&& exists|k: int| 0 <= k < boxes@.len() && #[trigger] boxes@[k].3 == r.3
        },
{
    let mut acc: (i32, i32, i32, i32) = (i32::MAX, i32::MAX, i32::MIN, i32::MIN);
    let mut i: usize = 0;
    while i < boxes.len()
        invariant
            i <= boxes@.len(),
            forall|k: int| 0 <= k < i ==> acc.0 <= #[trigger] boxes@[k].0 && acc.1 <= boxes@[k].1 && acc.2 >= boxes@[k].2 && acc.3 >= boxes@[k].3,
            i == 0 ==> acc == (i32::MAX, i32::MAX, i32::MIN, i32::MIN),
            i > 0 ==> {
                &&& exists|k: int| 0 <= k < i && #[trigger] boxes@[k].0 == acc.0
                &&& exists|k: int| 0 <= k < i && #[trigger] boxes@[k].1 == acc.1
                &&& exists|k: int| 0 <= k < i && #[trigger] boxes@[k].2 == acc.2
                &&& exists|k: int| 0 <= k < i && #[trigger] boxes@[k].3 == acc.3
            },
        decreases boxes@.len() - i,
    {
        let (l2, b2, r2, t2) = boxes[i];
        let (l, b, r, t) = acc;
        let ghost old_acc = acc;
        acc = (if l2 < l { l2 } else { l }, if b2 < b { b2 } else { b }, if r2 > r { r2 } else { r }, if t2 > t { t2 } else { t });
        proof {
            let ii = i as int;
            if i > 0 {
                if l2 >= l {
                    let k = choose|k: int| 0 <= k < ii && #[trigger] boxes@[k].0 == old_acc.0;
                    assert(boxes@[k].0 == acc.0);
                }
                if b2 >= b {
                    let k = choose|k: int| 0 <= k < ii && #[trigger] boxes@[k].1 == old_acc.1;
                    assert(boxes@[k].1 == acc.1);
                }
                if r2 <= r {
                    let k = choose|k: int| 0 <= k < ii && #[trigger] boxes@[k].2 == old_acc.2;
                    assert(boxes@[k].2 == acc.2);
                }
                if t2 <= t {
                    let k = choose|k: int| 0 <= k < ii && #[trigger] boxes@[k].3 == old_acc.3;
                    assert(boxes@[k].3 == acc.3);
                }
            }
            assert(boxes@[ii].0 == l2 && boxes@[ii].1 == b2 && boxes@[ii].2 == r2 && boxes@[ii].3 == t2);
        }
        i += 1;
    }
    acc
}

/// The top-down `(left, top, right, bottom)` image box of a bottom-up
/// `(left, bottom, right, top)` page box on a `page_w × page_h` page
/// (`PageIterator::BoundingBox` at scale 1): rows flip as `page_h - y`, each
/// edge is clipped to the page, and right and bottom are clipped from below
/// by left and top.
pub open spec fn image_box_spec(bx: (i32, i32, i32, i32), page_w: int, page_h: int) -> (int, int, int, int) {
    let img_left = clip_spec(bx.0 as int, 0, page_w);
    let img_top = clip_spec(page_h - bx.3, 0, page_h);
    let img_right = clip_spec(bx.2 as int, img_left, page_w);
    let img_bottom = clip_spec(page_h - bx.1, img_top, page_h);
    (img_left, img_top, img_right, img_bottom)
}

/// Law: a bottom-up box that lies in the page keeps its columns and has its
/// rows measured from the top of the page: `(left, bottom, right, top)`
/// becomes `(left, page_h - top, right, page_h - bottom)`.
pub proof fn lemma_image_box_flips_rows(bx: (i32, i32, i32, i32), page_w: int, page_h: int)
    requires
        0 <= bx.0 <= bx.2 <= page_w,
        0 <= bx.1 <= bx.3 <= page_h,
    ensures
        image_box_spec(bx, page_w, page_h) == (bx.0 as int, page_h - bx.3, bx.2 as int, page_h - bx.1),
{
}

/// Law: the rows of the image box depend on the page height only, never on
/// the page width, and its columns on the page width only.
pub proof fn lemma_image_box_axes_independent(bx: (i32, i32, i32, i32), w1: int, w2: int, h1: int, h2: int)
    ensures
        image_box_spec(bx, w1, h1).1 == image_box_spec(bx, w2, h1).1,
        image_box_spec(bx, w1, h1).3 == image_box_spec(bx, w2, h1).3,
        image_box_spec(bx, w1, h1).0 == image_box_spec(bx, w1, h2).0,
        image_box_spec(bx, w1, h1).2 == image_box_spec(bx, w1, h2).2,
{
}

/// Convert a bottom-up page box into the top-down image box (see
/// [`image_box_spec`]); on a page of non-negative size the result lies in
/// the page with `left <= right` and `top <= bottom`.
pub fn to_image_box(bx: (i32, i32, i32, i32), page_w: i32, page_h: i32) -> (r: (i32, i32, i32, i32))
    requires
        page_h as int - bx.1 as int >= i32::MIN,
        page_h as int - bx.3 as int >= i32::MIN,
        page_h as int - bx.1 as int <= i32::MAX,
        page_h as int - bx.3 as int <= i32::MAX,
    ensures
        (r.0 as int, r.1 as int, r.2 as int, r.3 as int) == image_box_spec(bx, page_w as int, page_h as int),
        page_w >= 0 && page_h >= 0 ==> 0 <= r.0 <= r.2 <= page_w && 0 <= r.1 <= r.3 <= page_h,
        0 <= bx.0 <= bx.2 <= page_w && 0 <= bx.1 <= bx.3 <= page_h ==> r == (bx.0, (page_h - bx.3) as i32, bx.2, (page_h - bx.1) as i32),
{
    let (left, bottom, right, top) = bx;
    let img_left = clip_to_range(left, 0, page_w);
    let img_top = clip_to_range(page_h - top, 0, page_h);
    let img_right = clip_to_range(right, img_left, page_w);
    let img_bottom = clip_to_range(page_h - bottom, img_top, page_h);
    (img_left, img_top, img_right, img_bottom)
}

/// The top-down `(left, top, width, height)` image rectangle of a bottom-up
/// page box, derived from [`to_image_box`].
pub fn to_image_rect(bx: (i32, i32, i32, i32), page_w: i32, page_h: i32) -> (r: (i32, i32, i32, i32))
    requires
        page_h as int - bx.1 as int >= i32::MIN,
        page_h as int - bx.3 as int >= i32::MIN,
        page_h as int - bx.1 as int <= i32::MAX,
        page_h as int - bx.3 as int <= i32::MAX,
    ensures
        ({
            let b = image_box_spec(bx, page_w as int, page_h as int);
            r.0 as int == b.0 && r.1 as int == b.1 && r.2 as int == b.2 - b.0 && r.3 as int == b.3 - b.1
        }),
{
    let (left, top, right, bottom) = to_image_box(bx, page_w, page_h);
    (left, top, right - left, bottom - top)
}


/// Row `y` of a `w`-wide binary image holds no ink (every byte is `255`).
pub open spec fn row_blank(b: Seq<u8>, w: int, y: int) -> bool {
    forall|x: int| 0 <= x < w ==> #[trigger] b[idx(x, y, w)] == 255
}

/// `runs` lists, top to bottom, exactly the maximal runs `(start, len)` of
/// blank rows among rows `0..h`.
pub open spec fn is_blank_runs(runs: Seq<(usize, usize)>, b: Seq<u8>, w: int, h: int) -> bool {
    &&& forall|k: int| 0 <= k < runs.len() ==> 1 <= (#[trigger] runs[k]).1 && runs[k].0 + runs[k].1 <= h
    &&& forall|k: int, y: int| 0 <= k < runs.len() && (#[trigger] runs[k]).0 <= y < runs[k].0 + runs[k].1 ==> #[trigger] row_blank(b, w, y)
    &&& forall|k: int| 0 <= k < runs.len() ==> (#[trigger] runs[k]).0 == 0 || !row_blank(b, w, runs[k].0 - 1)
    &&& forall|k: int| 0 <= k < runs.len() ==> (#[trigger] runs[k]).0 + runs[k].1 == h || !row_blank(b, w, runs[k].0 + runs[k].1)
    &&& forall|i: int, j: int| 0 <= i < j < runs.len() ==> (#[trigger] runs[i]).0 + runs[i].1 < (#[trigger] runs[j]).0
    &&& forall|y: int| 0 <= y < h && #[trigger] row_blank(b, w, y) ==> exists|k: int| 0 <= k < runs.len() && (#[trigger] runs[k]).0 <= y < runs[k].0 + runs[k].1
}

/// Whether row `y` of the image is blank.
fn row_is_blank(binary: &[u8], w: usize, h: usize, y: usize) -> (r: bool)
    requires
        binary@.len() == w * h,
        y < h,
    ensures
        r == row_blank(binary@, w as int, y as int),
{
    let n = binary.len();
    let mut x: usize = 0;
    while x < w
        invariant
            binary@.len() == w * h,
            n == binary@.len(),
            y < h,
            x <= w,
            forall|i: int| 0 <= i < x ==> #[trigger] binary@[idx(i, y as int, w as int)] == 255,
        decreases w - x,
    {
        proof {
            lemma_idx_bounds(x as int, y as int, w as int, h as int);
        }
        if binary[y * w + x] != 255 {
            proof {
                assert(binary@[idx(x as int, y as int, w as int)] != 255);
            }
            return false;
        }
        x += 1;
    }
    true
}

/// The maximal runs of blank rows, top to bottom, as `(start, len)`: the
/// vertical whitespace between text lines that paragraph-gap detection
/// measures.
pub fn blank_row_runs(binary: &[u8], w: usize, h: usize) -> (runs: Vec<(usize, usize)>)
    requires
        binary@.len() == w * h,
    ensures
        is_blank_runs(runs@, binary@, w as int, h as int),
{
    let ghost b = binary@;
    let ghost wi = w as int;
    let mut runs: Vec<(usize, usize)> = Vec::new();
    let mut open = false;
    let mut start: usize = 0;
    let mut y: usize = 0;
    while y < h
        invariant
            binary@ == b,
            wi == w as int,
            b.len() == w * h,
            y <= h,
            open ==> start < y && (start == 0 || !row_blank(b, wi, start - 1))
                && forall|r: int| start <= r < y ==> row_blank(b, wi, r),
            !open ==> y == 0 || !row_blank(b, wi, y - 1),
            forall|k: int| 0 <= k < runs@.len() ==> 1 <= (#[trigger] runs@[k]).1 && runs@[k].0 + runs@[k].1 < y
                && (open ==> runs@[k].0 + runs@[k].1 < start),
            forall|k: int, r: int| 0 <= k < runs@.len() && (#[trigger] runs@[k]).0 <= r < runs@[k].0 + runs@[k].1 ==> #[trigger] row_blank(b, wi, r),
            forall|k: int| 0 <= k < runs@.len() ==> (#[trigger] runs@[k]).0 == 0 || !row_blank(b, wi, runs@[k].0 - 1),
            forall|k: int| 0 <= k < runs@.len() ==> !row_blank(b, wi, (#[trigger] runs@[k]).0 + runs@[k].1),
            forall|i: int, j: int| 0 <= i < j < runs@.len() ==> (#[trigger] runs@[i]).0 + runs@[i].1 < (#[trigger] runs@[j]).0,
            forall|r: int| 0 <= r < y && #[trigger] row_blank(b, wi, r) ==> (open && start <= r) || exists|k: int|
                0 <= k < runs@.len() && (#[trigger] runs@[k]).0 <= r < runs@[k].0 + runs@[k].1,
        decreases h - y,
    {
        let blank = row_is_blank(binary, w, h, y);
        if blank {
            if !open {
                open = true;
                start = y;
            }
        } else if open {
            let ghost old_runs = runs@;
            runs.push((start, y - start));
            open = false;
            proof {
                assert(runs@.last() == (start, (y - start) as usize));
                assert forall|r: int| 0 <= r < y + 1 && #[trigger] row_blank(b, wi, r) implies exists|k: int|
                    0 <= k < runs@.len() && (#[trigger] runs@[k]).0 <= r < runs@[k].0 + runs@[k].1 by {
                    if start <= r < y {
                        assert(runs@[runs@.len() - 1].0 <= r < runs@[runs@.len() - 1].0 + runs@[runs@.len() - 1].1);
                    } else {
                        let k = choose|k: int| 0 <= k < old_runs.len() && (#[trigger] old_runs[k]).0 <= r < old_runs[k].0 + old_runs[k].1;
                        assert(runs@[k] == old_runs[k]);
                    }
                }
            }
        }
        y += 1;
    }
    if open {
        let ghost old_runs = runs@;
        runs.push((start, h - start));
        proof {
            assert forall|r: int| 0 <= r < h && #[trigger] row_blank(b, wi, r) implies exists|k: int|
                0 <= k < runs@.len() && (#[trigger] runs@[k]).0 <= r < runs@[k].0 + runs@[k].1 by {
                if start <= r {
                    assert(runs@[runs@.len() - 1].0 <= r < runs@[runs@.len() - 1].0 + runs@[runs@.len() - 1].1);
                } else {
                    let k = choose|k: int| 0 <= k < old_runs.len() && (#[trigger] old_runs[k]).0 <= r < old_runs[k].0 + old_runs[k].1;
                    assert(runs@[k] == old_runs[k]);
                }
            }
        }
    }
    runs
}

} // verus!
