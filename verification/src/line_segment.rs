//! Projection-profile line segmentation: text-line row bands found from a
//! page's per-row ink counts.
use vstd::prelude::*;

verus! {

/// A candidate text-line row band: `top` inclusive, `bottom` exclusive
/// (`grey[top*w..bottom*w]` is the cropped line strip).
#[derive(Debug, Clone, Copy, PartialEq, Eq, Structural)]
pub struct LineBand {
    /// First row of the band (inclusive).
    pub top: usize,
    /// One past the last row of the band (exclusive).
    pub bottom: usize,
}

impl LineBand {
    /// Band height in rows (`bottom - top`, `0` when the band is empty or
    /// inverted).
    pub fn height(&self) -> (r: usize)
        ensures
            r == if self.bottom >= self.top { self.bottom - self.top } else { 0 },
    {
        self.bottom.saturating_sub(self.top)
    }
}

/// Runs shorter than this many rows are noise (a stray speck row).
pub const MIN_BAND_HEIGHT: usize = 3;

/// Rows of padding added above and below each band.
pub const BAND_PADDING: usize = 2;

/// End (exclusive) of the run of non-zero rows starting at `y`.
pub open spec fn run_end(p: Seq<usize>, y: int) -> int
    decreases p.len() - y,
{
    if 0 <= y < p.len() && p[y] > 0 {
        run_end(p, y + 1)
    } else {
        y
    }
}

/// A run of non-zero rows from `y` ends inside the profile, after `y` when
/// row `y` is non-zero.
pub proof fn lemma_run_end(p: Seq<usize>, y: int)
    requires
        0 <= y <= p.len(),
    ensures
        y <= run_end(p, y) <= p.len(),
        y < p.len() && p[y] > 0 ==> y < run_end(p, y),
        forall|k: int| y <= k < run_end(p, y) ==> p[k] > 0,
        run_end(p, y) < p.len() ==> p[run_end(p, y)] == 0,
    decreases p.len() - y,
{
    if y < p.len() && p[y] > 0 {
        lemma_run_end(p, y + 1);
    }
}

/// The maximal runs `[start, end)` of non-zero rows from row `y` on, of at
/// least `MIN_BAND_HEIGHT` rows, top to bottom.
pub open spec fn raw_runs(p: Seq<usize>, y: int) -> Seq<(int, int)>
    decreases p.len() - y,
{
    if y < 0 || y >= p.len() {
        Seq::empty()
    } else if p[y] == 0 {
        raw_runs(p, y + 1)
    } else {
        let e = run_end(p, y);
        proof {
            lemma_run_end(p, y);
        }
        if e - y >= MIN_BAND_HEIGHT {
            seq![(y, e)] + raw_runs(p, e)
        } else {
            raw_runs(p, e)
        }
    }
}

/// A run's first row, padded upwards (clamped at the top of the page).
pub open spec fn pad_top(s: int) -> int {
    if s >= BAND_PADDING { s - BAND_PADDING } else { 0 }
}

/// A run's end, padded downwards (clamped at the page height `h`).
pub open spec fn pad_bottom(e: int, h: int) -> int {
    if e + BAND_PADDING < h { e + BAND_PADDING } else { h }
}

/// Padded runs `i - 1` and `i` overlap, so they are split at the middle of
/// the gap between the unpadded runs.
pub open spec fn splits(r: Seq<(int, int)>, h: int, i: int) -> bool {
    0 < i < r.len() && pad_top(r[i].0) < pad_bottom(r[i - 1].1, h)
}

/// The middle of the gap between runs `i - 1` and `i`.
pub open spec fn gap_mid(r: Seq<(int, int)>, i: int) -> int {
    (r[i - 1].1 + r[i].0) / 2
}

/// Band `i` made from run `i`: padded, with each edge moved to the gap's
/// middle where the padding would overlap the neighbouring band.
pub open spec fn band_of(r: Seq<(int, int)>, h: int, i: int) -> (int, int) {
    (
        if splits(r, h, i) { gap_mid(r, i) } else { pad_top(r[i].0) },
        if splits(r, h, i + 1) { gap_mid(r, i + 1) } else { pad_bottom(r[i].1, h) },
    )
}

/// Steps 3 and 4 of line finding on a per-row ink profile (one count per
/// row, `h = profile.len()`): every maximal run of inked rows at least
/// `MIN_BAND_HEIGHT` tall becomes a band padded by `BAND_PADDING` rows each
/// way (clamped to the page), and two neighbouring bands whose padding would
/// overlap are split at the middle of the gap between their runs.
pub fn bands_from_profile(profile: &[usize]) -> (bands: Vec<LineBand>)
    requires
        2 * profile@.len() + BAND_PADDING <= usize::MAX,
    ensures
        bands@.len() == raw_runs(profile@, 0).len(),
        forall|i: int|
            0 <= i < bands@.len() ==> (#[trigger] bands@[i].top as int, bands@[i].bottom as int) == band_of(raw_runs(profile@, 0), profile@.len() as int, i),
{
    let ghost p = profile@;
    let h = profile.len();
    proof {
        assert(p.len() == h);
    }
    let mut raw_bands: Vec<(usize, usize)> = Vec::new();
    let ghost all = raw_runs(p, 0);
    let mut y: usize = 0;
    while y < h
        invariant
            p == profile@,
            h == p.len(),
            2 * h + BAND_PADDING <= usize::MAX,
            y <= h,
            all == raw_runs(p, 0),
            Seq::new(raw_bands@.len(), |k: int| (raw_bands@[k].0 as int, raw_bands@[k].1 as int)) + raw_runs(p, y as int) == all,
            forall|k: int| 0 <= k < raw_bands@.len() ==> #[trigger] raw_bands@[k].1 <= y,
        decreases h - y,
    {
        let ghost rb0 = raw_bands@;
        if profile[y] > 0 {
            let start = y;
            proof {
                lemma_run_end(p, start as int);
            }
            while y < h && profile[y] > 0
                invariant
                    p == profile@,
                    h == p.len(),
                    start <= y <= h,
                    run_end(p, start as int) == run_end(p, y as int),
                decreases h - y,
            {
                y += 1;
            }
            let end = y;
            proof {
                lemma_run_end(p, start as int);
                assert(run_end(p, end as int) == end);
            }
            if end - start >= MIN_BAND_HEIGHT {
                raw_bands.push((start, end));
            }
            proof {
                let f = |rb: Seq<(usize, usize)>| Seq::new(rb.len(), |k: int| (rb[k].0 as int, rb[k].1 as int));
                if end - start >= MIN_BAND_HEIGHT {
                    assert(f(raw_bands@) =~= f(rb0) + seq![(start as int, end as int)]);
                    assert(f(rb0) + seq![(start as int, end as int)] + raw_runs(p, end as int) =~= f(rb0) + (seq![(start as int, end as int)]
                        + raw_runs(p, end as int)));
                } else {
                    assert(f(raw_bands@) =~= f(rb0));
                }
                assert forall|k: int| 0 <= k < raw_bands@.len() implies #[trigger] raw_bands@[k].1 <= y by {
                    if k < rb0.len() {
                        assert(raw_bands@[k] == rb0[k]);
                    }
                }
            }
        } else {
            y += 1;
        }
    }
    proof {
        let f = |rb: Seq<(usize, usize)>| Seq::new(rb.len(), |k: int| (rb[k].0 as int, rb[k].1 as int));
        assert(raw_runs(p, y as int) =~= Seq::<(int, int)>::empty());
        assert(f(raw_bands@) + raw_runs(p, y as int) =~= f(raw_bands@));
    }
    let mut bands: Vec<LineBand> = Vec::new();
    let mut i: usize = 0;
    while i < raw_bands.len()
        invariant
            p == profile@,
            h == p.len(),
            2 * h + BAND_PADDING <= usize::MAX,
            all == raw_runs(p, 0),
            all.len() == raw_bands@.len(),
            forall|k: int| 0 <= k < raw_bands@.len() ==> all[k] == (#[trigger] raw_bands@[k].0 as int, raw_bands@[k].1 as int),
            forall|k: int| 0 <= k < raw_bands@.len() ==> #[trigger] raw_bands@[k].1 <= h,
            i <= raw_bands@.len(),
            bands@.len() == i,
            forall|k: int| 0 <= k < i ==> (#[trigger] bands@[k].top as int, bands@[k].bottom as int) == (pad_top(all[k].0), pad_bottom(all[k].1, h as int)),
        decreases raw_bands@.len() - i,
    {
        let (start, end) = raw_bands[i];
        let top = start.saturating_sub(BAND_PADDING);
        let bottom = if end + BAND_PADDING < h { end + BAND_PADDING } else { h };
        bands.push(LineBand { top, bottom });
        i += 1;
    }
    let ghost padded = bands@;
    let mut i: usize = 1;
    while i < bands.len()
        invariant
            h == p.len(),
            2 * h + BAND_PADDING <= usize::MAX,
            all == raw_runs(p, 0),
            all.len() == raw_bands@.len(),
            forall|k: int| 0 <= k < raw_bands@.len() ==> all[k] == (#[trigger] raw_bands@[k].0 as int, raw_bands@[k].1 as int),
            forall|k: int| 0 <= k < raw_bands@.len() ==> #[trigger] raw_bands@[k].1 <= h,
            padded.len() == all.len(),
            forall|k: int| 0 <= k < padded.len() ==> (#[trigger] padded[k].top as int, padded[k].bottom as int) == (pad_top(all[k].0), pad_bottom(all[k].1, h as int)),
            bands@.len() == padded.len(),
            1 <= i,
            i <= bands@.len() || bands@.len() == 0,
            forall|k: int| 0 <= k < i - 1 ==> (#[trigger] bands@[k].top as int, bands@[k].bottom as int) == band_of(all, h as int, k),
            i - 1 < bands@.len() ==> (bands@[i - 1].top as int, bands@[i - 1].bottom as int) == (band_of(all, h as int, i - 1).0, pad_bottom(all[i - 1].1, h as int)),
            forall|k: int| i <= k < bands@.len() ==> #[trigger] bands@[k] == padded[k],
        decreases bands@.len() - i,
    {
        let ghost b0 = bands@;
        proof {
            assert(b0[i as int] == padded[i as int]);
            assert((padded[i as int].top as int, padded[i as int].bottom as int) == (pad_top(all[i as int].0), pad_bottom(all[i as int].1, h as int)));
            assert(all[i as int] == (raw_bands@[i as int].0 as int, raw_bands@[i as int].1 as int));
            assert(all[i - 1] == (raw_bands@[i - 1].0 as int, raw_bands@[i - 1].1 as int));
            assert((b0[i as int].top < b0[i - 1].bottom) == splits(all, h as int, i as int));
        }
        if bands[i].top < bands[i - 1].bottom {
            let gap_start = raw_bands[i - 1].1;
            let gap_end = raw_bands[i].0;
            let mid = (gap_start + gap_end) / 2;
            let mut prev = bands[i - 1];
            prev.bottom = mid;
            bands.set(i - 1, prev);
            let mut cur = bands[i];
            cur.top = mid;
            bands.set(i, cur);
            proof {
                assert(bands@ == b0.update(i - 1, prev).update(i as int, cur));
                assert forall|k: int| 0 <= k < bands@.len() && k != i - 1 && k != i implies bands@[k] == b0[k] by {}
            }
        }
        proof {
            assert forall|k: int| 0 <= k < i implies (#[trigger] bands@[k].top as int, bands@[k].bottom as int) == band_of(all, h as int, k) by {
                if k < i - 1 {
                    assert(bands@[k] == b0[k]);
                }
            }
            assert forall|k: int| i + 1 <= k < bands@.len() implies #[trigger] bands@[k] == padded[k] by {
                assert(bands@[k] == b0[k]);
            }
        }
        i += 1;
    }
    bands
}

/// The runs found from row `y` on lie in `y..=p.len()`, each at least
/// `MIN_BAND_HEIGHT` rows tall, top to bottom with at least one blank row
/// between neighbours.
pub proof fn lemma_raw_runs_ordered(p: Seq<usize>, y: int)
    requires
        0 <= y <= p.len(),
    ensures
        forall|k: int|
            0 <= k < raw_runs(p, y).len() ==> y <= #[trigger] raw_runs(p, y)[k].0 && raw_runs(p, y)[k].0 + MIN_BAND_HEIGHT <= raw_runs(p, y)[k].1
                <= p.len(),
        forall|k: int| 0 <= k < raw_runs(p, y).len() - 1 ==> #[trigger] raw_runs(p, y)[k].1 < raw_runs(p, y)[k + 1].0,
    decreases p.len() - y,
{
    if y < p.len() {
        if p[y] == 0 {
            lemma_raw_runs_ordered(p, y + 1);
            assert(raw_runs(p, y) == raw_runs(p, y + 1));
        } else {
            let e = run_end(p, y);
            lemma_run_end(p, y);
            lemma_raw_runs_ordered(p, e);
            let rest = raw_runs(p, e);
            if e - y < MIN_BAND_HEIGHT {
                assert(raw_runs(p, y) == rest);
            } else {
                let r = raw_runs(p, y);
                assert(r == seq![(y, e)] + rest);
                assert forall|k: int| 0 <= k < r.len() - 1 implies #[trigger] r[k].1 < r[k + 1].0 by {
                    if k == 0 {
                        assert(r[1] == rest[0]);
                        if e < p.len() {
                            assert(p[e] == 0);
                        }
                        assert(rest[0].0 != e) by {
                            if rest[0].0 == e {
                                assert(raw_runs(p, e) == raw_runs(p, e + 1)) by {
                                    assert(p[e] == 0);
                                }
                                lemma_raw_runs_ordered(p, e + 1);
                                assert(e + 1 <= raw_runs(p, e + 1)[0].0);
                            }
                        }
                    } else {
                        assert(r[k] == rest[k - 1]);
                        assert(r[k + 1] == rest[k]);
                    }
                }
                assert forall|k: int| 0 <= k < r.len() implies y <= #[trigger] r[k].0 && r[k].0 + MIN_BAND_HEIGHT <= r[k].1 <= p.len() by {
                    if k > 0 {
                        assert(r[k] == rest[k - 1]);
                    }
                }
            }
        }
    }
}

/// Law: the bands found in a profile come top to bottom, each non-empty and
/// inside the page, and no band overlaps the next.
pub proof fn lemma_bands_disjoint(p: Seq<usize>, i: int)
    requires
        0 <= i < raw_runs(p, 0).len(),
    ensures
        0 <= band_of(raw_runs(p, 0), p.len() as int, i).0 < band_of(raw_runs(p, 0), p.len() as int, i).1 <= p.len(),
        i + 1 < raw_runs(p, 0).len() ==> band_of(raw_runs(p, 0), p.len() as int, i).1 <= band_of(raw_runs(p, 0), p.len() as int, i + 1).0,
{
    let r = raw_runs(p, 0);
    let h = p.len() as int;
    lemma_raw_runs_ordered(p, 0);
    assert(0 <= r[i].0 && r[i].0 + MIN_BAND_HEIGHT <= r[i].1 <= h);
    if i > 0 {
        assert(r[i - 1].1 < r[i].0);
        assert(0 <= r[i - 1].0);
    }
    if i + 1 < r.len() {
        assert(r[i].1 < r[i + 1].0);
        assert(r[i + 1].0 + MIN_BAND_HEIGHT <= r[i + 1].1 <= h);
    }
}

} // verus!
