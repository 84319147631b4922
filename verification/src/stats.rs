//! A histogram over an arbitrary inclusive integer bucket range
//! `[range_min, range_max]`, with its integer accessors (`mode`,
//! `min_bucket`, `max_bucket`, `pile_count`, ...).
//!
//! The "empty" state (no bucket storage at all) is the default value; it is
//! otherwise unreachable once `new` or `set_range` has run.
use vstd::prelude::*;

verus! {

/// Clip `x` into `[lower, upper]` (lower bound tested first).
pub open spec fn spec_clip(x: int, lower: int, upper: int) -> int {
    if x < lower {
        lower
    } else if x > upper {
        upper
    } else {
        x
    }
}

/// Sum of a sequence of counts.
pub open spec fn seq_sum(s: Seq<i32>) -> int
    decreases s.len(),
{
    if s.len() == 0 {
        0
    } else {
        seq_sum(s.drop_last()) + s.last()
    }
}

/// The largest count in a non-empty sequence.
pub open spec fn seq_max(s: Seq<i32>) -> int
    decreases s.len(),
{
    if s.len() <= 1 {
        if s.len() == 1 { s[0] as int } else { 0 }
    } else {
        let m = seq_max(s.drop_last());
        if s.last() > m { s.last() as int } else { m }
    }
}

/// The bucket index `mode` reports: bucket 0 when it holds a largest count,
/// otherwise the highest index holding a largest count.
pub open spec fn is_mode_index(s: Seq<i32>, r: int) -> bool {
    &&& 0 <= r < s.len()
    &&& forall|j: int| 0 <= j < s.len() ==> s[j] <= s[r]
    &&& (s[0] == s[r] ==> r == 0)
    &&& (r > 0 ==> forall|j: int| r < j < s.len() ==> s[j] < s[r])
}

/// Index of the first non-zero bucket, or `s.len()` when there is none.
pub open spec fn first_nonzero(s: Seq<i32>) -> int
    decreases s.len(),
{
    if s.len() == 0 {
        0
    } else if s[0] != 0 {
        0
    } else {
        1 + first_nonzero(s.drop_first())
    }
}

/// Index of the last non-zero bucket among indices `1..`, or `0` when there
/// is none.
pub open spec fn last_nonzero_or_zero(s: Seq<i32>) -> int
    decreases s.len(),
{
    if s.len() <= 1 {
        0
    } else if s.last() != 0 {
        s.len() - 1
    } else {
        last_nonzero_or_zero(s.drop_last())
    }
}

proof fn lemma_seq_sum_update(s: Seq<i32>, i: int, v: i32)
    requires
        0 <= i < s.len(),
    ensures
        seq_sum(s.update(i, v)) == seq_sum(s) - s[i] + v,
    decreases s.len(),
{
    if i == s.len() - 1 {
        assert(s.update(i, v).drop_last() =~= s.drop_last());
    } else {
        lemma_seq_sum_update(s.drop_last(), i, v);
        assert(s.update(i, v).drop_last() =~= s.drop_last().update(i, v));
    }
}

proof fn lemma_seq_sum_zeros(s: Seq<i32>)
    requires
        forall|i: int| 0 <= i < s.len() ==> s[i] == 0,
    ensures
        seq_sum(s) == 0,
    decreases s.len(),
{
    if s.len() > 0 {
        lemma_seq_sum_zeros(s.drop_last());
    }
}

proof fn lemma_seq_max_props(s: Seq<i32>)
    requires
        s.len() >= 1,
    ensures
        forall|j: int| 0 <= j < s.len() ==> s[j] <= seq_max(s),
        exists|j: int| 0 <= j < s.len() && s[j] == seq_max(s),
    decreases s.len(),
{
    if s.len() > 1 {
        lemma_seq_max_props(s.drop_last());
        let m = seq_max(s.drop_last());
        let j0 = choose|j: int| 0 <= j < s.drop_last().len() && s.drop_last()[j] == m;
        assert forall|j: int| 0 <= j < s.len() - 1 implies s[j] == s.drop_last()[j] by {}
        if s.last() > m {
            assert(s[s.len() - 1] == seq_max(s));
        } else {
            assert(s[j0] == seq_max(s));
        }
    } else {
        assert(s[0] == seq_max(s));
    }
}

proof fn lemma_first_nonzero(s: Seq<i32>)
    ensures
        0 <= first_nonzero(s) <= s.len(),
        forall|j: int| 0 <= j < first_nonzero(s) ==> s[j] == 0,
        first_nonzero(s) < s.len() ==> s[first_nonzero(s)] != 0,
    decreases s.len(),
{
    if s.len() > 0 && s[0] == 0 {
        lemma_first_nonzero(s.drop_first());
        assert forall|j: int| 0 <= j < first_nonzero(s) implies s[j] == 0 by {
            if j > 0 {
                assert(s[j] == s.drop_first()[j - 1]);
            }
        }
    }
}

proof fn lemma_last_nonzero(s: Seq<i32>)
    ensures
        0 <= last_nonzero_or_zero(s),
        s.len() > 0 ==> last_nonzero_or_zero(s) < s.len(),
        forall|j: int| last_nonzero_or_zero(s) < j < s.len() ==> s[j] == 0,
        last_nonzero_or_zero(s) > 0 ==> s[last_nonzero_or_zero(s)] != 0,
    decreases s.len(),
{
    if s.len() > 1 && s.last() == 0 {
        lemma_last_nonzero(s.drop_last());
        assert forall|j: int| last_nonzero_or_zero(s) < j < s.len() implies s[j] == 0 by {
            if j < s.len() - 1 {
                assert(s[j] == s.drop_last()[j]);
            }
        }
    }
}

/// General histogram/percentile primitive over an arbitrary inclusive
/// `[range_min, range_max]` integer bucket range.
#[derive(Debug, Clone)]
pub struct Stats {
    rangemin: i32,
    rangemax: i32,
    total_count: i32,
    buckets: Vec<i32>,
}

impl Stats {
    /// Lowest bucket value.
    pub closed spec fn min_value(&self) -> int {
        self.rangemin as int
    }

    /// Highest bucket value.
    pub closed spec fn max_value(&self) -> int {
        self.rangemax as int
    }

    /// The recorded running total.
    pub closed spec fn total(&self) -> int {
        self.total_count as int
    }

    /// The bucket counts, index `0` holding value `min_value()`; empty in the
    /// storage-less default state.
    pub closed spec fn counts(&self) -> Seq<i32> {
        self.buckets@
    }

    /// Well-formedness: a non-empty range of fitting width, storage either
    /// absent or one count per bucket value, and the total equal to the sum
    /// of the counts.
    pub closed spec fn wf(&self) -> bool {
        &&& self.rangemin <= self.rangemax
        &&& self.rangemax - self.rangemin < i32::MAX
        &&& (self.buckets@.len() == 0 || self.buckets@.len() == self.rangemax - self.rangemin + 1)
        &&& self.total_count == seq_sum(self.buckets@)
    }

    /// A histogram whose buckets span `[min, max]`; a malformed range
    /// (`max < min`) is replaced with `[0, 1]`.
    pub fn new(min_bucket_value: i32, max_bucket_value: i32) -> (s: Self)
        requires
            max_bucket_value - min_bucket_value < i32::MAX,
        ensures
            s.wf(),
            max_bucket_value < min_bucket_value ==> s.min_value() == 0 && s.max_value() == 1,
            max_bucket_value >= min_bucket_value ==> s.min_value() == min_bucket_value
                && s.max_value() == max_bucket_value,
            s.total() == 0,
            s.counts().len() == s.max_value() - s.min_value() + 1,
            forall|i: int| 0 <= i < s.counts().len() ==> s.counts()[i] == 0,
    {
        let (rangemin, rangemax) = if max_bucket_value < min_bucket_value {
            (0i32, 1i32)
        } else {
            (min_bucket_value, max_bucket_value)
        };
        let len = (rangemax - rangemin + 1) as usize;
        let buckets = zeroed(len);
        proof {
            lemma_seq_sum_zeros(buckets@);
        }
        Stats { rangemin, rangemax, total_count: 0, buckets }
    }

    /// Returns `false` (and changes nothing) when `max < min`;
    /// otherwise adopts the new range with one zeroed count per bucket value
    /// (the storage is reallocated when the width changes or when there was
    /// none), and clears the total.
    pub fn set_range(&mut self, min_bucket_value: i32, max_bucket_value: i32) -> (ok: bool)
        requires
            old(self).wf(),
            max_bucket_value - min_bucket_value < i32::MAX,
        ensures
            final(self).wf(),
            ok == (min_bucket_value <= max_bucket_value),
            !ok ==> *final(self) == *old(self),
            ok ==> final(self).min_value() == min_bucket_value && final(self).max_value()
                == max_bucket_value && final(self).total() == 0,
            ok ==> final(self).counts().len() == max_bucket_value - min_bucket_value + 1,
            ok ==> forall|i: int|
                0 <= i < final(self).counts().len() ==> final(self).counts()[i] == 0,
    {
        if max_bucket_value < min_bucket_value {
            return false;
        }
        if self.rangemax - self.rangemin != max_bucket_value - min_bucket_value
            || self.buckets.len() == 0 {
            let len = (max_bucket_value - min_bucket_value + 1) as usize;
            self.buckets = zeroed(len);
        }
        self.rangemin = min_bucket_value;
        self.rangemax = max_bucket_value;
        self.clear_counts();
        true
    }

    fn clear_counts(&mut self)
        requires
            old(self).rangemin <= old(self).rangemax,
            old(self).rangemax - old(self).rangemin < i32::MAX,
            old(self).buckets@.len() == 0 || old(self).buckets@.len() == old(self).rangemax
                - old(self).rangemin + 1,
        ensures
            final(self).wf(),
            final(self).rangemin == old(self).rangemin,
            final(self).rangemax == old(self).rangemax,
            final(self).total_count == 0,
            final(self).buckets@.len() == old(self).buckets@.len(),
            forall|i: int| 0 <= i < final(self).buckets@.len() ==> final(self).buckets@[i] == 0,
    {
        self.total_count = 0;
        let n = self.buckets.len();
        let mut i: usize = 0;
        while i < n
            invariant
                n == self.buckets@.len(),
                self.rangemin == old(self).rangemin,
                self.rangemax == old(self).rangemax,
                self.total_count == 0,
                i <= n,
                forall|j: int| 0 <= j < i ==> self.buckets@[j] == 0,
            decreases n - i,
        {
            self.buckets.set(i, 0);
            i += 1;
        }
        proof {
            lemma_seq_sum_zeros(self.buckets@);
        }
    }

    /// Zero every count and the total.
    pub fn clear(&mut self)
        requires
            old(self).wf(),
        ensures
            final(self).wf(),
            final(self).min_value() == old(self).min_value(),
            final(self).max_value() == old(self).max_value(),
            final(self).total() == 0,
            final(self).counts().len() == old(self).counts().len(),
            forall|i: int| 0 <= i < final(self).counts().len() ==> final(self).counts()[i] == 0,
    {
        self.clear_counts();
    }

    /// Adds a count: `value` is clipped into the range and `count` is added to
    /// its bucket and to the total. No effect in the storage-less state.
    pub fn add(&mut self, value: i32, count: i32)
        requires
            old(self).wf(),
            old(self).counts().len() > 0 ==> i32::MIN <= old(self).total() + count <= i32::MAX,
            old(self).counts().len() > 0 ==> i32::MIN <= old(self).counts()[spec_clip(
                value as int,
                old(self).min_value(),
                old(self).max_value(),
            ) - old(self).min_value()] + count <= i32::MAX,
        ensures
            final(self).wf(),
            final(self).min_value() == old(self).min_value(),
            final(self).max_value() == old(self).max_value(),
            old(self).counts().len() == 0 ==> *final(self) == *old(self),
            old(self).counts().len() > 0 ==> final(self).total() == old(self).total() + count,
            old(self).counts().len() > 0 ==> final(self).counts() == old(self).counts().update(
                spec_clip(value as int, old(self).min_value(), old(self).max_value())
                    - old(self).min_value(),
                (old(self).counts()[spec_clip(
                    value as int,
                    old(self).min_value(),
                    old(self).max_value(),
                ) - old(self).min_value()] + count) as i32,
            ),
    {
        if self.buckets.len() == 0 {
            return;
        }
        let v = clip_i32(value, self.rangemin, self.rangemax);
        let idx = (v - self.rangemin) as usize;
        let nb = self.buckets[idx] + count;
        proof {
            lemma_seq_sum_update(self.buckets@, idx as int, nb);
        }
        self.buckets.set(idx, nb);
        self.total_count = self.total_count + count;
    }

    /// The value of a bucket holding the largest count —
    /// bucket 0 when it holds one, otherwise the highest such bucket.
    /// `range_min` in the storage-less state.
    pub fn mode(&self) -> (m: i32)
        requires
            self.wf(),
        ensures
            self.counts().len() == 0 ==> m == self.min_value(),
            self.counts().len() > 0 ==> is_mode_index(self.counts(), m - self.min_value()),
    {
        if self.buckets.len() == 0 {
            return self.rangemin;
        }
        let mut max = self.buckets[0];
        let mut maxindex: i32 = 0;
        let mut index: i32 = self.rangemax - self.rangemin;
        let ghost s = self.buckets@;
        while index > 0
            invariant
                s == self.buckets@,
                s.len() == self.rangemax - self.rangemin + 1,
                0 <= index < s.len(),
                0 <= maxindex < s.len(),
                max == s[maxindex as int],
                maxindex == 0 || maxindex > index,
                forall|j: int| index < j < s.len() ==> s[j] <= max,
                s[0] <= max,
                maxindex == 0 ==> forall|j: int| index < j < s.len() ==> #[trigger] s[j] <= s[0],
                maxindex > 0 ==> s[0] < max,
                maxindex > 0 ==> forall|j: int| maxindex < j < s.len() ==> #[trigger] s[j] < max,
            decreases index,
        {
            let b = self.buckets[index as usize];
            if b > max {
                max = b;
                maxindex = index;
            }
            index -= 1;
        }
        maxindex + self.rangemin
    }

    /// The value of the first non-zero bucket (one past
    /// the range when every bucket is zero); `range_min` when there is no
    /// storage or the total is zero.
    pub fn min_bucket(&self) -> (m: i32)
        requires
            self.wf(),
        ensures
            self.counts().len() == 0 || self.total() == 0 ==> m == self.min_value(),
            self.counts().len() > 0 && self.total() != 0 ==> m == self.min_value()
                + first_nonzero(self.counts()),
    {
        if self.buckets.len() == 0 || self.total_count == 0 {
            return self.rangemin;
        }
        proof {
            lemma_first_nonzero(self.buckets@);
            if first_nonzero(self.buckets@) == self.buckets@.len() {
                lemma_seq_sum_zeros(self.buckets@);
            }
        }
        let mut min: i32 = 0;
        let n: i32 = self.rangemax - self.rangemin;
        while min <= n && self.buckets[min as usize] == 0
            invariant
                self.buckets@.len() == n + 1,
                0 <= n < i32::MAX,
                0 <= min <= first_nonzero(self.buckets@),
                first_nonzero(self.buckets@) < self.buckets@.len(),
                self.rangemin + n < i32::MAX + 1,
                0 <= first_nonzero(self.buckets@) <= self.buckets@.len(),
                forall|j: int| 0 <= j < first_nonzero(self.buckets@) ==> self.buckets@[j] == 0,
                first_nonzero(self.buckets@) < self.buckets@.len() ==> self.buckets@[first_nonzero(
                    self.buckets@,
                )] != 0,
            decreases n + 1 - min,
        {
            min += 1;
        }
        self.rangemin + min
    }

    /// The value of the last non-zero bucket above
    /// index 0 (`range_min` when there is none); `range_min` when there is no
    /// storage or the total is zero.
    pub fn max_bucket(&self) -> (m: i32)
        requires
            self.wf(),
        ensures
            self.counts().len() == 0 || self.total() == 0 ==> m == self.min_value(),
            self.counts().len() > 0 && self.total() != 0 ==> m == self.min_value()
                + last_nonzero_or_zero(self.counts()),
    {
        if self.buckets.len() == 0 || self.total_count == 0 {
            return self.rangemin;
        }
        proof {
            lemma_last_nonzero(self.buckets@);
        }
        let mut max: i32 = self.rangemax - self.rangemin;
        while max > 0 && self.buckets[max as usize] == 0
            invariant
                self.buckets@.len() == self.rangemax - self.rangemin + 1,
                0 <= max < self.buckets@.len(),
                forall|j: int| max < j < self.buckets@.len() ==> self.buckets@[j] == 0,
                0 <= last_nonzero_or_zero(self.buckets@) < self.buckets@.len(),
                forall|j: int|
                    last_nonzero_or_zero(self.buckets@) < j < self.buckets@.len()
                        ==> self.buckets@[j] == 0,
                last_nonzero_or_zero(self.buckets@) > 0 ==> self.buckets@[last_nonzero_or_zero(
                    self.buckets@,
                )] != 0,
            decreases max,
        {
            max -= 1;
        }
        self.rangemin + max
    }

    /// The count of the bucket holding `value`, with
    /// out-of-range values reading the nearest edge bucket; `0` without
    /// storage.
    pub fn pile_count(&self, value: i32) -> (c: i32)
        requires
            self.wf(),
        ensures
            self.counts().len() == 0 ==> c == 0,
            self.counts().len() > 0 ==> c == self.counts()[spec_clip(
                value as int,
                self.min_value(),
                self.max_value(),
            ) - self.min_value()],
    {
        if self.buckets.len() == 0 {
            return 0;
        }
        if value <= self.rangemin {
            return self.buckets[0];
        }
        if value >= self.rangemax {
            return self.buckets[(self.rangemax - self.rangemin) as usize];
        }
        self.buckets[(value - self.rangemin) as usize]
    }

    /// The running total of all added counts.
    pub fn get_total(&self) -> (t: i32)
        ensures
            t == self.total(),
    {
        self.total_count
    }

    /// The configured range minimum.
    pub fn range_min(&self) -> (m: i32)
        ensures
            m == self.min_value(),
    {
        self.rangemin
    }

    /// The configured range maximum.
    pub fn range_max(&self) -> (m: i32)
        ensures
            m == self.max_value(),
    {
        self.rangemax
    }

    /// Law: in a well-formed histogram the total always equals the sum of
    /// the bucket counts.
    pub proof fn lemma_total_is_sum(&self)
        requires
            self.wf(),
        ensures
            self.total() == seq_sum(self.counts()),
    {
    }

    /// Law: the reported mode bucket holds the largest count of the
    /// histogram.
    pub proof fn lemma_mode_is_maximal(&self, r: int)
        requires
            self.wf(),
            self.counts().len() > 0,
            is_mode_index(self.counts(), r),
        ensures
            self.counts()[r] == seq_max(self.counts()),
    {
        lemma_seq_max_props(self.counts());
    }
}

impl Default for Stats {
    /// The storage-less state: range `[0, 0]`, no buckets.
    fn default() -> (s: Self)
        ensures
            s.wf(),
            s.min_value() == 0,
            s.max_value() == 0,
            s.total() == 0,
            s.counts().len() == 0,
    {
        Stats { rangemin: 0, rangemax: 0, total_count: 0, buckets: Vec::new() }
    }
}

/// Clip an `i32` into `[lower, upper]` (`ClipToRange`).
pub fn clip_i32(x: i32, lower: i32, upper: i32) -> (r: i32)
    ensures
        r == spec_clip(x as int, lower as int, upper as int),
{
    if x < lower {
        lower
    } else if x > upper {
        upper
    } else {
        x
    }
}

/// A vector of `n` zero counts.
fn zeroed(n: usize) -> (v: Vec<i32>)
    ensures
        v@.len() == n,
        forall|i: int| 0 <= i < n ==> v@[i] == 0,
{
    let mut v: Vec<i32> = Vec::with_capacity(n);
    let mut i: usize = 0;
    while i < n
        invariant
            i <= n,
            v@.len() == i,
            forall|j: int| 0 <= j < i ==> v@[j] == 0,
        decreases n - i,
    {
        v.push(0);
        i += 1;
    }
    v
}

} // verus!
