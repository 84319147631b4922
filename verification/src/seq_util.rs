//! Ascending sort, consecutive-duplicate removal and the integer median of
//! `usize` sequences, each defined as a spec function and computed by a
//! verified executable function.
use vstd::prelude::*;

verus! {

/// Where `v` is inserted into `s` by an insertion sort scanning from the
/// back: after the last element not greater than `v`.
pub open spec fn ins_pos(s: Seq<usize>, v: usize) -> int
    decreases s.len(),
{
    if s.len() == 0 {
        0
    } else if s.last() <= v {
        s.len() as int
    } else {
        ins_pos(s.drop_last(), v)
    }
}

/// Ascending (stable insertion) sort.
pub open spec fn sort_spec(s: Seq<usize>) -> Seq<usize>
    decreases s.len(),
{
    if s.len() == 0 {
        s
    } else {
        let t = sort_spec(s.drop_last());
        t.insert(ins_pos(t, s.last()), s.last())
    }
}

/// Removal of consecutive repeated elements (`Vec::dedup`).
pub open spec fn dedup_spec(s: Seq<usize>) -> Seq<usize>
    decreases s.len(),
{
    if s.len() == 0 {
        s
    } else {
        let r = dedup_spec(s.drop_last());
        if r.len() > 0 && r.last() == s.last() {
            r
        } else {
            r.push(s.last())
        }
    }
}

/// Integer median: the middle element of the sorted sequence, or the
/// truncated mean of the two middle elements on an even count; `None` when
/// empty.
pub open spec fn median_spec(s: Seq<usize>) -> Option<usize> {
    if s.len() == 0 {
        None
    } else {
        let t = sort_spec(s);
        let mid = (s.len() / 2) as int;
        if s.len() % 2 == 0 {
            Some(((t[mid - 1] + t[mid]) / 2) as usize)
        } else {
            Some(t[mid])
        }
    }
}

/// Ascending order.
pub open spec fn is_sorted(s: Seq<usize>) -> bool {
    forall|i: int, j: int| 0 <= i <= j < s.len() ==> s[i] <= s[j]
}

/// Every element at most `b`.
pub open spec fn all_le(s: Seq<usize>, b: int) -> bool {
    forall|i: int| 0 <= i < s.len() ==> s[i] <= b
}

pub proof fn lemma_ins_pos_bounds(s: Seq<usize>, v: usize)
    ensures
        0 <= ins_pos(s, v) <= s.len(),
    decreases s.len(),
{
    if s.len() > 0 && s.last() > v {
        lemma_ins_pos_bounds(s.drop_last(), v);
    }
}

pub proof fn lemma_ins_pos_sorted(s: Seq<usize>, v: usize)
    requires
        is_sorted(s),
    ensures
        forall|i: int| 0 <= i < ins_pos(s, v) ==> s[i] <= v,
        forall|i: int| ins_pos(s, v) <= i < s.len() ==> s[i] > v,
    decreases s.len(),
{
    lemma_ins_pos_bounds(s, v);
    if s.len() > 0 {
        if s.last() <= v {
        } else {
            let d = s.drop_last();
            assert(is_sorted(d));
            lemma_ins_pos_sorted(d, v);
            assert forall|i: int| ins_pos(s, v) <= i < s.len() implies s[i] > v by {
                if i < s.len() - 1 {
                    assert(s[i] == d[i]);
                }
            }
            assert forall|i: int| 0 <= i < ins_pos(s, v) implies s[i] <= v by {
                assert(s[i] == d[i]);
            }
        }
    }
}

/// The sort keeps the length, orders the elements, and keeps any upper
/// bound of the elements.
pub proof fn lemma_sort_props(s: Seq<usize>, b: int)
    ensures
        sort_spec(s).len() == s.len(),
        is_sorted(sort_spec(s)),
        all_le(s, b) ==> all_le(sort_spec(s), b),
        s.len() > 0 ==> sort_spec(s).contains(s.last()),
        forall|i: int| 0 <= i < s.len() ==> sort_spec(s).contains(#[trigger] s[i]),
        forall|i: int| 0 <= i < s.len() ==> s.contains(#[trigger] sort_spec(s)[i]),
    decreases s.len(),
{
    if s.len() > 0 {
        let d = s.drop_last();
        lemma_sort_props(d, b);
        let t = sort_spec(d);
        let v = s.last();
        lemma_ins_pos_bounds(t, v);
        lemma_ins_pos_sorted(t, v);
        let p = ins_pos(t, v);
        let r = t.insert(p, v);
        assert(r[p] == v);
        assert forall|i: int, j: int| 0 <= i <= j < r.len() implies r[i] <= r[j] by {
            if i < p && j < p {
                assert(r[i] == t[i] && r[j] == t[j]);
            } else if i < p && j == p {
                assert(r[i] == t[i]);
            } else if i < p {
                assert(r[i] == t[i] && r[j] == t[j - 1]);
            } else if i == p && j > p {
                assert(r[j] == t[j - 1]);
            } else if i > p {
                assert(r[i] == t[i - 1] && r[j] == t[j - 1]);
            }
        }
        assert forall|i: int| 0 <= i < s.len() implies r.contains(#[trigger] s[i]) by {
            if i < s.len() - 1 {
                assert(t.contains(d[i]));
                let j = choose|j: int| 0 <= j < t.len() && t[j] == d[i];
                if j < p {
                    assert(r[j] == t[j]);
                } else {
                    assert(r[j + 1] == t[j]);
                }
            } else {
                assert(r[p] == s[i]);
            }
        }
        assert forall|i: int| 0 <= i < r.len() implies s.contains(#[trigger] r[i]) by {
            if i == p {
                assert(s[s.len() - 1] == r[i]);
            } else {
                let ti = if i < p { i } else { i - 1 };
                assert(r[i] == t[ti]);
                assert(d.contains(t[ti]));
                let j = choose|j: int| 0 <= j < d.len() && d[j] == t[ti];
                assert(s[j] == r[i]);
            }
        }
        if all_le(s, b) {
            assert(all_le(d, b));
            assert forall|i: int| 0 <= i < r.len() implies r[i] <= b by {
                if i < p {
                    assert(r[i] == t[i]);
                } else if i > p {
                    assert(r[i] == t[i - 1]);
                }
            }
        }
    }
}

/// Deduplication keeps sortedness and upper bounds, keeps a non-empty
/// sequence non-empty, and keeps the first and last elements.
pub proof fn lemma_dedup_props(s: Seq<usize>, b: int)
    ensures
        dedup_spec(s).len() <= s.len(),
        s.len() > 0 ==> dedup_spec(s).len() > 0,
        s.len() > 0 ==> dedup_spec(s)[0] == s[0],
        s.len() > 0 ==> dedup_spec(s).last() == s.last(),
        is_sorted(s) ==> is_sorted(dedup_spec(s)),
        all_le(s, b) ==> all_le(dedup_spec(s), b),
        forall|i: int| 0 <= i < dedup_spec(s).len() ==> s.contains(#[trigger] dedup_spec(s)[i]),
    decreases s.len(),
{
    if s.len() > 0 {
        let d = s.drop_last();
        lemma_dedup_props(d, b);
        let r = dedup_spec(d);
        if d.len() > 0 {
            assert(d[0] == s[0]);
        }
        if is_sorted(s) {
            assert(is_sorted(d));
            if r.len() > 0 {
                assert(d.contains(r.last()));
                let j = choose|j: int| 0 <= j < d.len() && d[j] == r.last();
                assert(r.last() <= s.last());
            }
            assert(is_sorted(dedup_spec(s)));
        }
        if all_le(s, b) {
            assert(all_le(d, b));
        }
        assert forall|i: int| 0 <= i < dedup_spec(s).len() implies s.contains(#[trigger] dedup_spec(s)[i]) by {
            if i < r.len() {
                assert(d.contains(r[i]));
                let j = choose|j: int| 0 <= j < d.len() && d[j] == r[i];
                assert(s[j] == r[i]);
            } else {
                assert(s[s.len() - 1] == s.last());
            }
        }
    }
}

/// The median is bounded by any bound on the elements.
pub proof fn lemma_median_le(s: Seq<usize>, b: int)
    requires
        s.len() > 0,
        all_le(s, b),
        b <= usize::MAX,
    ensures
        median_spec(s) is Some,
        median_spec(s)->0 <= b,
{
    lemma_sort_props(s, b);
}

/// Ascending sort of a vector (insertion sort).
pub fn sort_usize(v: &Vec<usize>) -> (r: Vec<usize>)
    ensures
        r@ == sort_spec(v@),
{
    let mut out: Vec<usize> = Vec::new();
    let mut i: usize = 0;
    while i < v.len()
        invariant
            i <= v@.len(),
            out@ == sort_spec(v@.take(i as int)),
        decreases v@.len() - i,
    {
        let x = v[i];
        proof {
            lemma_sort_props(v@.take(i as int), 0);
        }
        let mut j: usize = out.len();
        proof {
            assert(out@.take(j as int) =~= out@);
        }
        while j > 0 && out[j - 1] > x
            invariant
                j <= out@.len(),
                ins_pos(out@, x) == ins_pos(out@.take(j as int), x),
            decreases j,
        {
            proof {
                assert(out@.take(j as int).drop_last() =~= out@.take(j - 1));
            }
            j -= 1;
        }
        proof {
            assert(out@.take(out@.len() as int) =~= out@);
            if j > 0 {
                assert(out@.take(j as int).last() == out@[j - 1]);
            }
            assert(ins_pos(out@, x) == j);
            assert(v@.take(i + 1).drop_last() =~= v@.take(i as int));
        }
        out.insert(j, x);
        i += 1;
    }
    proof {
        assert(v@.take(v@.len() as int) =~= v@);
    }
    out
}

/// Remove consecutive repeated elements.
pub fn dedup_usize(v: &Vec<usize>) -> (r: Vec<usize>)
    ensures
        r@ == dedup_spec(v@),
{
    let mut out: Vec<usize> = Vec::new();
    let mut i: usize = 0;
    while i < v.len()
        invariant
            i <= v@.len(),
            out@ == dedup_spec(v@.take(i as int)),
        decreases v@.len() - i,
    {
        let x = v[i];
        proof {
            assert(v@.take(i + 1).drop_last() =~= v@.take(i as int));
        }
        let n = out.len();
        if n == 0 || out[n - 1] != x {
            out.push(x);
        }
        i += 1;
    }
    proof {
        assert(v@.take(v@.len() as int) =~= v@);
    }
    out
}

/// Integer median (`None` when empty).
pub fn median_usize(values: &Vec<usize>) -> (r: Option<usize>)
    requires
        all_le(values@, usize::MAX as int / 2),
    ensures
        r == median_spec(values@),
{
    if values.len() == 0 {
        return None;
    }
    let sorted = sort_usize(values);
    proof {
        lemma_sort_props(values@, usize::MAX as int / 2);
    }
    let mid = sorted.len() / 2;
    if sorted.len() % 2 == 0 {
        Some((sorted[mid - 1] + sorted[mid]) / 2)
    } else {
        Some(sorted[mid])
    }
}

} // verus!
