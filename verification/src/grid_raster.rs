//! Column-lattice inheritance: detect a regular column lattice among page
//! blocks and re-split merged blocks at its column boundaries. Pure
//! rectangle geometry, integer-only.
use vstd::prelude::*;
use crate::seq_util::{
    sort_spec, dedup_spec, median_spec, is_sorted, all_le, lemma_sort_props, lemma_dedup_props,
    lemma_median_le, sort_usize, dedup_usize, median_usize,
};

verus! {

/// A page rectangle, top-down, `right`/`bottom` exclusive.
#[derive(Clone, Copy, Debug, PartialEq, Eq, Structural)]
pub struct PageRect {
    /// Left edge (inclusive).
    pub left: usize,
    /// Top edge (inclusive).
    pub top: usize,
    /// Right edge (exclusive).
    pub right: usize,
    /// Bottom edge (exclusive).
    pub bottom: usize,
}

/// `right - left`, or 0 when `right < left`.
pub open spec fn rect_width(b: PageRect) -> int {
    if b.right >= b.left { b.right - b.left } else { 0 }
}

/// `bottom - top`, or 0 when `bottom < top`.
pub open spec fn rect_height(b: PageRect) -> int {
    if b.bottom >= b.top { b.bottom - b.top } else { 0 }
}

impl PageRect {
    /// Width in pixels (`right - left`, saturating at 0).
    pub fn width(&self) -> (r: usize)
        ensures
            r == rect_width(*self),
    {
        if self.right >= self.left { self.right - self.left } else { 0 }
    }

    /// Height in pixels (`bottom - top`, saturating at 0).
    pub fn height(&self) -> (r: usize)
        ensures
            r == rect_height(*self),
    {
        if self.bottom >= self.top { self.bottom - self.top } else { 0 }
    }
}

/// The width tolerance of a lattice cell, in percent of the median width.
const WIDTH_TOL_NUM: usize = 25;
const WIDTH_TOL_DEN: usize = 100;
/// Fewest conforming blocks / occupied slots that make a lattice.
const MIN_RASTER_COLS: usize = 3;
/// Slot-position tolerance, in percent of the pitch.
const POS_TOL_NUM: usize = 15;
const POS_TOL_DEN: usize = 100;
/// Minimum fraction of slots `0..=k_max` that must be occupied.
const OCCUPANCY_FRAC_NUM: usize = 1;
const OCCUPANCY_FRAC_DEN: usize = 2;
/// Minimum height of a block to split, as a fraction of the cell height.
const SPAN_HEIGHT_FRAC_NUM: usize = 1;
const SPAN_HEIGHT_FRAC_DEN: usize = 2;
/// Minimum pitch as a fraction of the modal width.
const PITCH_FLOOR_NUM: usize = 9;
const PITCH_FLOOR_DEN: usize = 10;
/// Overlap fraction of a column's width that counts as spanning it.
const SPAN_OVERLAP_FRAC_NUM: usize = 1;
const SPAN_OVERLAP_FRAC_DEN: usize = 2;

/// A detected regular column lattice.
#[derive(Clone, Debug, PartialEq, Eq)]
pub struct ColumnRaster {
    /// The lattice columns `(left, right)`, right exclusive, one per slot
    /// `0..=k_max`.
    pub columns: Vec<(usize, usize)>,
    /// The fitted pitch (median distinct left-to-left step).
    pub pitch: usize,
    /// Median height of the on-lattice conforming blocks.
    pub cell_h: usize,
}

/// The bound on page coordinates under which every lattice computation
/// stays in `usize`: the width-tolerance test multiplies a width by 125, and
/// a block spanning `0..=coord_bound()` makes that product reach `usize::MAX`.
pub open spec fn coord_bound() -> int {
    usize::MAX as int / 125
}

/// Every coordinate of every block is within [`coord_bound`].
pub open spec fn blocks_fit(s: Seq<PageRect>) -> bool {
    forall|i: int|
        0 <= i < s.len() ==> #[trigger] s[i].left <= coord_bound() && s[i].right <= coord_bound()
            && s[i].top <= coord_bound() && s[i].bottom <= coord_bound()
}

pub open spec fn widths_of(s: Seq<PageRect>) -> Seq<usize> {
    Seq::new(s.len(), |i: int| rect_width(s[i]) as usize)
}

pub open spec fn lefts_of(s: Seq<PageRect>) -> Seq<usize> {
    Seq::new(s.len(), |i: int| s[i].left)
}

/// A block whose width lies within ±25% of the modal width `m`.
pub open spec fn conforms(b: PageRect, m: int) -> bool {
    100 * rect_width(b) >= 75 * m && 100 * rect_width(b) <= 125 * m
}

/// The modal-width (conforming) subset, in input order.
pub open spec fn conforming_spec(s: Seq<PageRect>, m: int) -> Seq<PageRect>
    decreases s.len(),
{
    if s.len() == 0 {
        s
    } else {
        let r = conforming_spec(s.drop_last(), m);
        if conforms(s.last(), m) { r.push(s.last()) } else { r }
    }
}

/// Consecutive differences of a sequence.
pub open spec fn diffs_of(l: Seq<usize>) -> Seq<usize> {
    Seq::new(if l.len() >= 1 { (l.len() - 1) as nat } else { 0 }, |i: int| (l[i + 1] - l[i]) as usize)
}

/// `a / b` rounded half up, for non-negative operands.
pub open spec fn round_div_spec(a: int, b: int) -> int {
    (2 * a + b) / (2 * b)
}

/// The lattice slot of a block: its left edge's distance from `x0` in
/// pitches, rounded.
pub open spec fn slot_of(b: PageRect, x0: int, p: int) -> int {
    round_div_spec(b.left - x0, p)
}

/// A block whose left edge is within 15% of a pitch of its slot's position.
pub open spec fn on_lattice(b: PageRect, x0: int, p: int) -> bool {
    let pred = x0 + slot_of(b, x0, p) * p;
    let diff = if pred >= b.left { pred - b.left } else { b.left - pred };
    100 * diff <= 15 * p
}

/// The on-lattice blocks with their slots, in input order.
pub open spec fn lattice_spec(s: Seq<PageRect>, x0: int, p: int) -> Seq<(PageRect, usize)>
    decreases s.len(),
{
    if s.len() == 0 {
        Seq::empty()
    } else {
        let r = lattice_spec(s.drop_last(), x0, p);
        if on_lattice(s.last(), x0, p) {
            r.push((s.last(), slot_of(s.last(), x0, p) as usize))
        } else {
            r
        }
    }
}

pub open spec fn slots_of(l: Seq<(PageRect, usize)>) -> Seq<usize> {
    Seq::new(l.len(), |i: int| l[i].1)
}

pub open spec fn lattice_heights(l: Seq<(PageRect, usize)>) -> Seq<usize> {
    Seq::new(l.len(), |i: int| rect_height(l[i].0) as usize)
}

/// Every slot `0..=k_max` as `(x0 + k·p, x0 + k·p + m)`.
pub open spec fn columns_spec(x0: int, p: int, m: int, k_max: int) -> Seq<(usize, usize)> {
    Seq::new((k_max + 1) as nat, |k: int| ((x0 + k * p) as usize, (x0 + k * p + m) as usize))
}

/// The lattice fit once the pitch is known.
pub open spec fn detect_from_pitch(conf: Seq<PageRect>, x0: int, p: int, m: int) -> Option<
    (Seq<(usize, usize)>, usize, usize),
> {
    let ol = lattice_spec(conf, x0, p);
    let dk = dedup_spec(sort_spec(slots_of(ol)));
    if dk.len() < 3 {
        None
    } else {
        let k_max = dk.last() as int;
        if k_max < 2 {
            None
        } else if 2 * dk.len() < k_max + 1 {
            None
        } else {
            match median_spec(lattice_heights(ol)) {
                None => None,
                Some(cell_h) => Some((columns_spec(x0, p, m, k_max), p as usize, cell_h)),
            }
        }
    }
}

/// The whole lattice detection: `(columns, pitch, cell_h)` or `None`.
pub open spec fn detect_spec(blocks: Seq<PageRect>) -> Option<(Seq<(usize, usize)>, usize, usize)> {
    if blocks.len() < 3 {
        None
    } else {
        let m = median_spec(widths_of(blocks))->0 as int;
        if m == 0 {
            None
        } else {
            let conf = conforming_spec(blocks, m);
            if conf.len() < 3 {
                None
            } else {
                let lefts = dedup_spec(sort_spec(lefts_of(conf)));
                match median_spec(diffs_of(lefts)) {
                    None => None,
                    Some(p) => {
                        if p == 0 || 10 * p < 9 * m {
                            None
                        } else {
                            detect_from_pitch(conf, lefts[0] as int, p as int, m)
                        }
                    },
                }
            }
        }
    }
}

proof fn lemma_conforming_props(s: Seq<PageRect>, m: int)
    ensures
        conforming_spec(s, m).len() <= s.len(),
        forall|i: int| 0 <= i < conforming_spec(s, m).len() ==> s.contains(#[trigger] conforming_spec(s, m)[i]),
    decreases s.len(),
{
    if s.len() > 0 {
        let d = s.drop_last();
        lemma_conforming_props(d, m);
        let r = conforming_spec(d, m);
        assert forall|i: int| 0 <= i < conforming_spec(s, m).len() implies s.contains(#[trigger] conforming_spec(s, m)[i]) by {
            if i < r.len() {
                assert(d.contains(r[i]));
                let j = choose|j: int| 0 <= j < d.len() && d[j] == r[i];
                assert(s[j] == r[i]);
            } else {
                assert(s[s.len() - 1] == s.last());
            }
        }
    }
}

proof fn lemma_lattice_props(s: Seq<PageRect>, x0: int, p: int)
    ensures
        lattice_spec(s, x0, p).len() <= s.len(),
        forall|i: int|
            0 <= i < lattice_spec(s, x0, p).len() ==> s.contains(#[trigger] lattice_spec(s, x0, p)[i].0)
                && lattice_spec(s, x0, p)[i].1 == slot_of(lattice_spec(s, x0, p)[i].0, x0, p) as usize,
    decreases s.len(),
{
    if s.len() > 0 {
        let d = s.drop_last();
        lemma_lattice_props(d, x0, p);
        let r = lattice_spec(d, x0, p);
        assert forall|i: int| 0 <= i < lattice_spec(s, x0, p).len() implies s.contains(#[trigger] lattice_spec(s, x0, p)[i].0)
            && lattice_spec(s, x0, p)[i].1 == slot_of(lattice_spec(s, x0, p)[i].0, x0, p) as usize by {
            if i < r.len() {
                assert(d.contains(r[i].0));
                let j = choose|j: int| 0 <= j < d.len() && d[j] == r[i].0;
                assert(s[j] == r[i].0);
            } else {
                assert(s[s.len() - 1] == s.last());
            }
        }
    }
}

/// The slot arithmetic stays in range: `k·p ≤ d + p`.
proof fn lemma_slot_bound(d: int, p: int)
    requires
        d >= 0,
        p >= 1,
    ensures
        round_div_spec(d, p) >= 0,
        round_div_spec(d, p) * p <= d + p,
{
    let k = round_div_spec(d, p);
    assert(k >= 0) by (nonlinear_arith)
        requires
            k == (2 * d + p) / (2 * p),
            d >= 0,
            p >= 1,
    ;
    assert(k * (2 * p) <= 2 * d + p) by (nonlinear_arith)
        requires
            k == (2 * d + p) / (2 * p),
            d >= 0,
            p >= 1,
    ;
    assert(k * p <= d + p) by (nonlinear_arith)
        requires
            k * (2 * p) <= 2 * d + p,
            p >= 1,
    ;
}

fn widths_vec(blocks: &[PageRect]) -> (r: Vec<usize>)
    ensures
        r@ == widths_of(blocks@),
{
    let mut r: Vec<usize> = Vec::new();
    let mut i: usize = 0;
    while i < blocks.len()
        invariant
            i <= blocks@.len(),
            r@.len() == i,
            forall|k: int| 0 <= k < i ==> r@[k] == widths_of(blocks@)[k],
        decreases blocks@.len() - i,
    {
        r.push(blocks[i].width());
        i += 1;
    }
    proof {
        assert(r@ =~= widths_of(blocks@));
    }
    r
}

fn lefts_vec(blocks: &Vec<PageRect>) -> (r: Vec<usize>)
    ensures
        r@ == lefts_of(blocks@),
{
    let mut r: Vec<usize> = Vec::new();
    let mut i: usize = 0;
    while i < blocks.len()
        invariant
            i <= blocks@.len(),
            r@.len() == i,
            forall|k: int| 0 <= k < i ==> r@[k] == lefts_of(blocks@)[k],
        decreases blocks@.len() - i,
    {
        r.push(blocks[i].left);
        i += 1;
    }
    proof {
        assert(r@ =~= lefts_of(blocks@));
    }
    r
}

fn conforming_vec(blocks: &[PageRect], m: usize) -> (r: Vec<PageRect>)
    requires
        blocks_fit(blocks@),
        m <= coord_bound(),
    ensures
        r@ == conforming_spec(blocks@, m as int),
{
    let mut r: Vec<PageRect> = Vec::new();
    let mut i: usize = 0;
    while i < blocks.len()
        invariant
            blocks_fit(blocks@),
            m <= coord_bound(),
            i <= blocks@.len(),
            r@ == conforming_spec(blocks@.take(i as int), m as int),
        decreases blocks@.len() - i,
    {
        let b = blocks[i];
        proof {
            assert(blocks@.take(i + 1).drop_last() =~= blocks@.take(i as int));
            assert(blocks@[i as int] == b);
        }
        let w = b.width();
        assert(WIDTH_TOL_DEN - WIDTH_TOL_NUM == 75 && WIDTH_TOL_DEN + WIDTH_TOL_NUM == 125);
        assert(75 * m <= 125 * m <= usize::MAX);
        if WIDTH_TOL_DEN * w >= (WIDTH_TOL_DEN - WIDTH_TOL_NUM) * m && WIDTH_TOL_DEN * w <= (
        WIDTH_TOL_DEN + WIDTH_TOL_NUM) * m {
            r.push(b);
        }
        i += 1;
    }
    proof {
        assert(blocks@.take(blocks@.len() as int) =~= blocks@);
    }
    r
}

fn diffs_vec(l: &Vec<usize>) -> (r: Vec<usize>)
    requires
        is_sorted(l@),
    ensures
        r@ == diffs_of(l@),
{
    let mut r: Vec<usize> = Vec::new();
    if l.len() == 0 {
        proof {
            assert(r@ =~= diffs_of(l@));
        }
        return r;
    }
    let n = l.len();
    let mut i: usize = 0;
    while i + 1 < n
        invariant
            n == l@.len(),
            is_sorted(l@),
            l@.len() >= 1,
            i + 1 <= l@.len(),
            r@.len() == i,
            forall|k: int| 0 <= k < i ==> r@[k] == diffs_of(l@)[k],
        decreases l@.len() - i,
    {
        r.push(l[i + 1] - l[i]);
        i += 1;
    }
    proof {
        assert(r@ =~= diffs_of(l@));
    }
    r
}

/// `a / b` rounded half up (`(2a + b) / (2b)`).
fn round_div(a: usize, b: usize) -> (r: usize)
    requires
        b > 0,
        2 * a + 2 * b <= usize::MAX,
    ensures
        r == round_div_spec(a as int, b as int),
{
    (2 * a + b) / (2 * b)
}

fn lattice_vec(conf: &Vec<PageRect>, x0: usize, p: usize) -> (r: Vec<(PageRect, usize)>)
    requires
        blocks_fit(conf@),
        forall|i: int| 0 <= i < conf@.len() ==> x0 <= #[trigger] conf@[i].left,
        1 <= p <= coord_bound(),
    ensures
        r@ == lattice_spec(conf@, x0 as int, p as int),
{
    let mut r: Vec<(PageRect, usize)> = Vec::new();
    let mut i: usize = 0;
    while i < conf.len()
        invariant
            blocks_fit(conf@),
            forall|i: int| 0 <= i < conf@.len() ==> x0 <= #[trigger] conf@[i].left,
            1 <= p <= coord_bound(),
            i <= conf@.len(),
            r@ == lattice_spec(conf@.take(i as int), x0 as int, p as int),
        decreases conf@.len() - i,
    {
        let b = conf[i];
        proof {
            assert(conf@.take(i + 1).drop_last() =~= conf@.take(i as int));
            assert(conf@[i as int] == b);
            assert(x0 <= b.left);
            assert(b.left <= coord_bound());
        }
        let diff = b.left - x0;
        let k = round_div(diff, p);
        proof {
            lemma_slot_bound(diff as int, p as int);
        }
        let predicted = x0 + k * p;
        let pos_diff = if predicted >= b.left { predicted - b.left } else { b.left - predicted };
        if POS_TOL_DEN * pos_diff <= POS_TOL_NUM * p {
            r.push((b, k));
        }
        i += 1;
    }
    proof {
        assert(conf@.take(conf@.len() as int) =~= conf@);
    }
    r
}

fn slots_vec(l: &Vec<(PageRect, usize)>) -> (r: Vec<usize>)
    ensures
        r@ == slots_of(l@),
{
    let mut r: Vec<usize> = Vec::new();
    let mut i: usize = 0;
    while i < l.len()
        invariant
            i <= l@.len(),
            r@.len() == i,
            forall|k: int| 0 <= k < i ==> r@[k] == slots_of(l@)[k],
        decreases l@.len() - i,
    {
        r.push(l[i].1);
        i += 1;
    }
    proof {
        assert(r@ =~= slots_of(l@));
    }
    r
}

fn heights_vec(l: &Vec<(PageRect, usize)>) -> (r: Vec<usize>)
    ensures
        r@ == lattice_heights(l@),
{
    let mut r: Vec<usize> = Vec::new();
    let mut i: usize = 0;
    while i < l.len()
        invariant
            i <= l@.len(),
            r@.len() == i,
            forall|k: int| 0 <= k < i ==> r@[k] == lattice_heights(l@)[k],
        decreases l@.len() - i,
    {
        r.push(l[i].0.height());
        i += 1;
    }
    proof {
        assert(r@ =~= lattice_heights(l@));
    }
    r
}

fn columns_vec(x0: usize, p: usize, m: usize, k_max: usize) -> (r: Vec<(usize, usize)>)
    requires
        x0 + k_max * p + m <= usize::MAX,
        k_max < usize::MAX,
    ensures
        r@ == columns_spec(x0 as int, p as int, m as int, k_max as int),
{
    let mut r: Vec<(usize, usize)> = Vec::new();
    let mut k: usize = 0;
    while k <= k_max
        invariant
            x0 + k_max * p + m <= usize::MAX,
            k_max < usize::MAX,
            k <= k_max + 1,
            r@.len() == k,
            forall|j: int| 0 <= j < k ==> r@[j] == columns_spec(x0 as int, p as int, m as int, k_max as int)[j],
        decreases k_max + 1 - k,
    {
        proof {
            assert(k * p <= k_max * p) by (nonlinear_arith)
                requires
                    k <= k_max,
            ;
        }
        let left = x0 + k * p;
        r.push((left, left + m));
        k += 1;
    }
    proof {
        assert(r@ =~= columns_spec(x0 as int, p as int, m as int, k_max as int));
    }
    r
}

/// Detects a regular column lattice over `blocks`: median width `m`, the
/// blocks within ±25% of it, the median of their distinct left-edge steps
/// as the pitch (at least `0.9·m`), the blocks within 15% of a pitch of
/// their rounded slot, and at least 3 occupied slots covering at least half
/// of `0..=k_max` with `k_max ≥ 2`. `None` whenever a gate fails.
pub fn detect_column_raster(blocks: &[PageRect]) -> (r: Option<ColumnRaster>)
    requires
        blocks_fit(blocks@),
        blocks@.len() <= usize::MAX / 4,
    ensures
        r matches Some(c) ==> detect_spec(blocks@) == Some((c.columns@, c.pitch, c.cell_h)),
        r is None ==> detect_spec(blocks@) is None,
{
    if blocks.len() < MIN_RASTER_COLS {
        return None;
    }
    let widths = widths_vec(blocks);
    proof {
        assert(all_le(widths@, coord_bound()));
        lemma_median_le(widths@, coord_bound());
    }
    let m = match median_usize(&widths) {
        Some(m) => m,
        None => {
            return None;
        },
    };
    if m == 0 {
        return None;
    }
    let conforming = conforming_vec(blocks, m);
    proof {
        lemma_conforming_props(blocks@, m as int);
        assert(blocks_fit(conforming@)) by {
            assert forall|i: int| 0 <= i < conforming@.len() implies #[trigger] conforming@[i].left <= coord_bound()
                && conforming@[i].right <= coord_bound() && conforming@[i].top <= coord_bound()
                && conforming@[i].bottom <= coord_bound() by {
                assert(blocks@.contains(conforming@[i]));
            }
        }
    }
    if conforming.len() < MIN_RASTER_COLS {
        return None;
    }
    let lefts0 = lefts_vec(&conforming);
    let lefts1 = sort_usize(&lefts0);
    let lefts = dedup_usize(&lefts1);
    proof {
        assert(all_le(lefts0@, coord_bound()));
        lemma_sort_props(lefts0@, coord_bound());
        lemma_dedup_props(lefts1@, coord_bound());
    }
    let diffs = diffs_vec(&lefts);
    proof {
        assert(all_le(diffs@, coord_bound()));
    }
    let p = match median_usize(&diffs) {
        Some(p) => p,
        None => {
            return None;
        },
    };
    proof {
        if diffs@.len() > 0 {
            lemma_median_le(diffs@, coord_bound());
        }
    }
    if p == 0 {
        return None;
    }
    if PITCH_FLOOR_DEN * p < PITCH_FLOOR_NUM * m {
        return None;
    }
    let x0 = lefts[0];
    proof {
        assert forall|i: int| 0 <= i < conforming@.len() implies x0 <= #[trigger] conforming@[i].left by {
            assert(lefts0@[i] == conforming@[i].left);
            assert(lefts1@.contains(lefts0@[i]));
            let j = choose|j: int| 0 <= j < lefts1@.len() && lefts1@[j] == lefts0@[i];
            assert(lefts1@[0] <= lefts1@[j]);
        }
    }
    let on_lat = lattice_vec(&conforming, x0, p);
    let slots = slots_vec(&on_lat);
    let slots_sorted = sort_usize(&slots);
    let distinct_k = dedup_usize(&slots_sorted);
    proof {
        lemma_lattice_props(conforming@, x0 as int, p as int);
        lemma_sort_props(slots@, 0);
        lemma_dedup_props(slots_sorted@, 0);
        lemma_conforming_props(blocks@, m as int);
    }
    if distinct_k.len() < MIN_RASTER_COLS {
        return None;
    }
    let k_max = distinct_k[distinct_k.len() - 1];
    if k_max < 2 {
        return None;
    }
    proof {
        // k_max is the slot of some on-lattice block, so k_max·p stays small.
        assert(slots_sorted@.contains(k_max));
        let j1 = choose|j: int| 0 <= j < slots_sorted@.len() && slots_sorted@[j] == k_max;
        assert(slots@.contains(slots_sorted@[j1]));
        let j2 = choose|j: int| 0 <= j < slots@.len() && slots@[j] == k_max;
        let b = on_lat@[j2].0;
        assert(conforming@.contains(b));
        let j3 = choose|j: int| 0 <= j < conforming@.len() && conforming@[j] == b;
        assert(x0 <= b.left && b.left <= coord_bound());
        lemma_slot_bound(b.left - x0, p as int);
        assert(k_max * p <= 2 * coord_bound());
        assert(k_max <= 2 * coord_bound()) by (nonlinear_arith)
            requires
                k_max * p <= 2 * coord_bound(),
                p >= 1,
        ;
        assert(distinct_k@.len() <= blocks@.len());
    }
    if OCCUPANCY_FRAC_DEN * distinct_k.len() < OCCUPANCY_FRAC_NUM * (k_max + 1) {
        return None;
    }
    let heights = heights_vec(&on_lat);
    proof {
        assert forall|i: int| 0 <= i < heights@.len() implies heights@[i] <= coord_bound() by {
            assert(conforming@.contains(on_lat@[i].0));
            let j = choose|j: int| 0 <= j < conforming@.len() && conforming@[j] == on_lat@[i].0;
        }
        assert(all_le(heights@, coord_bound()));
    }
    let cell_h = match median_usize(&heights) {
        Some(c) => c,
        None => {
            return None;
        },
    };
    let columns = columns_vec(x0, p, m, k_max);
    Some(ColumnRaster { columns, pitch: p, cell_h })
}

/// A detected lattice is a regular one: with `m` the median block width, it
/// has at least three columns, the `k`-th spanning `x0 + k·p ..
/// x0 + k·p + m` where `x0` is the left edge of one of the blocks and the
/// pitch `p` is positive and at least `0.9·m`.
pub proof fn lemma_detected_lattice(blocks: Seq<PageRect>)
    requires
        blocks_fit(blocks),
        detect_spec(blocks) is Some,
    ensures
        ({
            let (cols, p, cell_h) = detect_spec(blocks)->0;
            let m = median_spec(widths_of(blocks))->0 as int;
            &&& cols.len() >= 3
            &&& m >= 1
            &&& p >= 1
            &&& 10 * p >= 9 * m
            &&& forall|k: int| 0 <= k < cols.len() ==> #[trigger] cols[k].0 == cols[0].0 + k * p && cols[k].1 == cols[k].0 + m
            &&& exists|j: int| 0 <= j < blocks.len() && (#[trigger] blocks[j]).left == cols[0].0
        }),
{
    let m = median_spec(widths_of(blocks))->0 as int;
    assert(all_le(widths_of(blocks), coord_bound()));
    lemma_median_le(widths_of(blocks), coord_bound());
    let conf = conforming_spec(blocks, m);
    lemma_conforming_props(blocks, m);
    let l0 = lefts_of(conf);
    let l1 = sort_spec(l0);
    let lefts = dedup_spec(l1);
    lemma_sort_props(l0, coord_bound());
    lemma_dedup_props(l1, coord_bound());
    assert(all_le(l0, coord_bound()));
    assert forall|i: int| 0 <= i < diffs_of(lefts).len() implies #[trigger] diffs_of(lefts)[i] <= coord_bound() by {
        assert(lefts[i] <= lefts[i + 1]);
        assert(lefts[i + 1] <= coord_bound());
    }
    assert(all_le(diffs_of(lefts), coord_bound()));
    lemma_median_le(diffs_of(lefts), coord_bound());
    let p = median_spec(diffs_of(lefts))->0 as int;
    let x0 = lefts[0] as int;
    // x0 is the smallest conforming left edge, and a block's own left edge.
    assert(l1.contains(x0 as usize));
    let i0 = choose|i: int| 0 <= i < l1.len() && l1[i] == x0;
    assert(l0.contains(l1[i0]));
    let i1 = choose|i: int| 0 <= i < l0.len() && l0[i] == x0;
    assert(blocks.contains(conf[i1]));
    let j = choose|j: int| 0 <= j < blocks.len() && blocks[j] == conf[i1];
    assert(blocks[j].left == x0);
    let ol = lattice_spec(conf, x0, p);
    lemma_lattice_props(conf, x0, p);
    let sl = slots_of(ol);
    let ss = sort_spec(sl);
    let dk = dedup_spec(ss);
    lemma_sort_props(sl, 0);
    lemma_dedup_props(ss, 0);
    let k_max = dk.last() as int;
    // k_max is the slot of an on-lattice block, so k_max·p stays small.
    assert(ss.contains(dk.last()));
    let a1 = choose|a: int| 0 <= a < ss.len() && ss[a] == dk.last();
    assert(sl.contains(ss[a1]));
    let a2 = choose|a: int| 0 <= a < sl.len() && sl[a] == dk.last();
    let b = ol[a2].0;
    assert(conf.contains(b));
    let a3 = choose|a: int| 0 <= a < conf.len() && conf[a] == b;
    assert(l0[a3] == b.left);
    assert(l1.contains(l0[a3]));
    let a4 = choose|a: int| 0 <= a < l1.len() && l1[a] == b.left;
    assert(l1[0] <= l1[a4]);
    assert(x0 <= b.left <= coord_bound());
    assert(blocks.contains(b));
    assert(p >= 1);
    lemma_slot_bound(b.left - x0, p);
    assert(slot_of(b, x0, p) * p <= 2 * coord_bound());
    assert(slot_of(b, x0, p) <= 2 * coord_bound()) by (nonlinear_arith)
        requires
            slot_of(b, x0, p) * p <= 2 * coord_bound(),
            p >= 1,
    ;
    assert(k_max == slot_of(b, x0, p));
    let cols = columns_spec(x0, p, m, k_max);
    let found = detect_spec(blocks)->0;
    assert(cols == found.0);
    assert forall|k: int| 0 <= k < cols.len() implies #[trigger] cols[k].0 == cols[0].0 + k * p && cols[k].1
        == cols[k].0 + m by {
        assert(k * p <= k_max * p) by (nonlinear_arith)
            requires
                0 <= k <= k_max,
                p >= 1,
        ;
    }
}

/// The gap midpoints between adjacent columns.
pub open spec fn boundaries_spec(cols: Seq<(usize, usize)>) -> Seq<usize> {
    Seq::new(
        if cols.len() >= 1 { (cols.len() - 1) as nat } else { 0 },
        |i: int| ((cols[i].1 + cols[i + 1].0) / 2) as usize,
    )
}

/// Adjacent column sums fit in `usize`.
pub open spec fn boundaries_fit(cols: Seq<(usize, usize)>) -> bool {
    forall|i: int| 0 <= i < cols.len() - 1 ==> #[trigger] cols[i].1 + cols[i + 1].0 <= usize::MAX
}

/// Whether block `b` spans column `c`: the column has positive width and
/// their overlap covers at least half of it.
pub open spec fn spans_column(b: PageRect, c: (usize, usize)) -> bool {
    let col_w = if c.1 >= c.0 { c.1 - c.0 } else { 0 };
    let ol = if b.left >= c.0 { b.left as int } else { c.0 as int };
    let or = if b.right <= c.1 { b.right as int } else { c.1 as int };
    let overlap = if or >= ol { or - ol } else { 0 };
    col_w != 0 && 2 * overlap >= col_w
}

/// How many of `cols` block `b` spans.
pub open spec fn spanned_count(cols: Seq<(usize, usize)>, b: PageRect) -> int
    decreases cols.len(),
{
    if cols.len() == 0 {
        0
    } else {
        spanned_count(cols.drop_last(), b) + if spans_column(b, cols.last()) { 1int } else { 0int }
    }
}

/// Column right edges small enough for the overlap arithmetic.
pub open spec fn columns_fit(cols: Seq<(usize, usize)>) -> bool {
    forall|i: int| 0 <= i < cols.len() ==> #[trigger] cols[i].1 <= usize::MAX / 2
}

proof fn lemma_spanned_count_bounds(cols: Seq<(usize, usize)>, b: PageRect)
    ensures
        0 <= spanned_count(cols, b) <= cols.len(),
    decreases cols.len(),
{
    if cols.len() > 0 {
        lemma_spanned_count_bounds(cols.drop_last(), b);
    }
}

impl ColumnRaster {
    /// The gap midpoint between every pair of adjacent columns, in column
    /// order (`columns.len() - 1` of them; none for fewer than 2 columns).
    pub fn boundaries(&self) -> (r: Vec<usize>)
        requires
            boundaries_fit(self.columns@),
        ensures
            r@ == boundaries_spec(self.columns@),
    {
        let mut r: Vec<usize> = Vec::new();
        let n = self.columns.len();
        if n == 0 {
            proof {
                assert(r@ =~= boundaries_spec(self.columns@));
            }
            return r;
        }
        let mut i: usize = 0;
        while i + 1 < n
            invariant
                n == self.columns@.len(),
                n >= 1,
                boundaries_fit(self.columns@),
                i + 1 <= n,
                r@.len() == i,
                forall|k: int| 0 <= k < i ==> r@[k] == boundaries_spec(self.columns@)[k],
            decreases n - i,
        {
            let a = self.columns[i].1;
            let b = self.columns[i + 1].0;
            r.push((a + b) / 2);
            i += 1;
        }
        proof {
            assert(r@ =~= boundaries_spec(self.columns@));
        }
        r
    }

    /// How many columns block `b` spans: its overlap with a column covers
    /// at least half of that column's (positive) width.
    pub fn spanned(&self, b: PageRect) -> (n: usize)
        requires
            columns_fit(self.columns@),
        ensures
            n == spanned_count(self.columns@, b),
    {
        let mut n: usize = 0;
        let mut i: usize = 0;
        while i < self.columns.len()
            invariant
                columns_fit(self.columns@),
                i <= self.columns@.len(),
                n == spanned_count(self.columns@.take(i as int), b),
            decreases self.columns@.len() - i,
        {
            let (left, right) = self.columns[i];
            proof {
                assert(self.columns@.take(i + 1).drop_last() =~= self.columns@.take(i as int));
                lemma_spanned_count_bounds(self.columns@.take(i as int), b);
            }
            let col_w = if right >= left { right - left } else { 0 };
            if col_w != 0 {
                let overlap_left = if b.left >= left { b.left } else { left };
                let overlap_right = if b.right <= right { b.right } else { right };
                let overlap = if overlap_right >= overlap_left { overlap_right - overlap_left } else { 0 };
                if SPAN_OVERLAP_FRAC_DEN * overlap >= SPAN_OVERLAP_FRAC_NUM * col_w {
                    n += 1;
                }
            }
            i += 1;
        }
        proof {
            assert(self.columns@.take(self.columns@.len() as int) =~= self.columns@);
        }
        n
    }
}

/// The boundaries strictly inside `(left, right)`, in order.
pub open spec fn inside_spec(s: Seq<usize>, left: int, right: int) -> Seq<usize>
    decreases s.len(),
{
    if s.len() == 0 {
        s
    } else {
        let r = inside_spec(s.drop_last(), left, right);
        if left < s.last() < right { r.push(s.last()) } else { r }
    }
}

/// The sub-rects of `b` cut at the ascending `cuts`.
pub open spec fn pieces_spec(b: PageRect, cuts: Seq<usize>) -> Seq<PageRect> {
    Seq::new(
        cuts.len() + 1,
        |i: int|
            PageRect {
                left: if i == 0 { b.left } else { cuts[i - 1] },
                top: b.top,
                right: if i < cuts.len() { cuts[i] } else { b.right },
                bottom: b.bottom,
            },
    )
}

/// What one block becomes: itself, unless it spans at least 2 columns, is
/// at least half a cell tall and has a boundary strictly inside it — then
/// its pieces, left to right.
pub open spec fn split_one_spec(b: PageRect, cols: Seq<(usize, usize)>, cell_h: int) -> Seq<PageRect> {
    let cuts = sort_spec(inside_spec(boundaries_spec(cols), b.left as int, b.right as int));
    if !(spanned_count(cols, b) >= 2 && 2 * rect_height(b) >= cell_h) || cuts.len() == 0 {
        seq![b]
    } else {
        pieces_spec(b, cuts)
    }
}

/// Every block's replacement, concatenated in input order.
pub open spec fn split_spec(blocks: Seq<PageRect>, cols: Seq<(usize, usize)>, cell_h: int) -> Seq<PageRect>
    decreases blocks.len(),
{
    if blocks.len() == 0 {
        Seq::empty()
    } else {
        split_spec(blocks.drop_last(), cols, cell_h) + split_one_spec(blocks.last(), cols, cell_h)
    }
}

fn inside_vec(s: &Vec<usize>, left: usize, right: usize) -> (r: Vec<usize>)
    ensures
        r@ == inside_spec(s@, left as int, right as int),
{
    let mut r: Vec<usize> = Vec::new();
    let mut i: usize = 0;
    while i < s.len()
        invariant
            i <= s@.len(),
            r@ == inside_spec(s@.take(i as int), left as int, right as int),
        decreases s@.len() - i,
    {
        proof {
            assert(s@.take(i + 1).drop_last() =~= s@.take(i as int));
        }
        let x = s[i];
        if x > left && x < right {
            r.push(x);
        }
        i += 1;
    }
    proof {
        assert(s@.take(s@.len() as int) =~= s@);
    }
    r
}

/// Re-splits every block that spans at least 2 of `r`'s columns and is at
/// least half of `r.cell_h` tall at `r`'s column boundaries strictly inside
/// it; every other block passes through. Input order is kept, a split block
/// being replaced in place by its sub-rects, left to right.
pub fn split_nonconforming(blocks: &[PageRect], r: &ColumnRaster) -> (out: Vec<PageRect>)
    requires
        boundaries_fit(r.columns@),
        columns_fit(r.columns@),
        forall|i: int| 0 <= i < blocks@.len() ==> #[trigger] blocks@[i].bottom <= usize::MAX / 2,
    ensures
        out@ == split_spec(blocks@, r.columns@, r.cell_h as int),
{
    let boundaries = r.boundaries();
    let mut out: Vec<PageRect> = Vec::new();
    let mut i: usize = 0;
    while i < blocks.len()
        invariant
            boundaries@ == boundaries_spec(r.columns@),
            boundaries_fit(r.columns@),
            columns_fit(r.columns@),
            forall|i: int| 0 <= i < blocks@.len() ==> #[trigger] blocks@[i].bottom <= usize::MAX / 2,
            i <= blocks@.len(),
            out@ == split_spec(blocks@.take(i as int), r.columns@, r.cell_h as int),
        decreases blocks@.len() - i,
    {
        let b = blocks[i];
        proof {
            assert(blocks@.take(i + 1).drop_last() =~= blocks@.take(i as int));
            assert(blocks@[i as int] == b);
            assert(b.bottom <= usize::MAX / 2);
        }
        let ghost before = out@;
        let spans_enough_columns = r.spanned(b) >= 2;
        let tall_enough = SPAN_HEIGHT_FRAC_DEN * b.height() >= SPAN_HEIGHT_FRAC_NUM * r.cell_h;
        let inside = inside_vec(&boundaries, b.left, b.right);
        let cuts = sort_usize(&inside);
        if !(spans_enough_columns && tall_enough) || cuts.len() == 0 {
            out.push(b);
            proof {
                assert(out@ =~= before + seq![b]);
            }
        } else {
            let mut left = b.left;
            let mut j: usize = 0;
            while j < cuts.len()
                invariant
                    j <= cuts@.len(),
                    out@.len() == before.len() + j,
                    forall|k: int| 0 <= k < before.len() ==> out@[k] == before[k],
                    forall|k: int| 0 <= k < j ==> out@[before.len() + k] == pieces_spec(b, cuts@)[k],
                    left == (if j == 0 { b.left } else { cuts@[j - 1] }),
                decreases cuts@.len() - j,
            {
                let cut = cuts[j];
                out.push(PageRect { left, top: b.top, right: cut, bottom: b.bottom });
                left = cut;
                j += 1;
            }
            out.push(PageRect { left, top: b.top, right: b.right, bottom: b.bottom });
            proof {
                assert(out@ =~= before + pieces_spec(b, cuts@));
            }
        }
        i += 1;
    }
    proof {
        assert(blocks@.take(blocks@.len() as int) =~= blocks@);
    }
    out
}

} // verus!
