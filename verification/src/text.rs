//! Character-sequence helpers for line text: Unicode whitespace trimming,
//! ASCII lowercasing, substring search and decimal digit runs.
use vstd::prelude::*;

verus! {

/// A character with the Unicode `White_Space` property (`char::is_whitespace`).
pub open spec fn is_uws(c: char) -> bool {
    ('\t' <= c <= '\r') || c == ' ' || c == '\u{85}' || c == '\u{A0}' || c == '\u{1680}' || ('\u{2000}' <= c <= '\u{200A}') || c
        == '\u{2028}' || c == '\u{2029}' || c == '\u{202F}' || c == '\u{205F}' || c == '\u{3000}'
}

/// An ASCII decimal digit.
pub open spec fn is_digit_char(c: char) -> bool {
    '0' <= c <= '9'
}

/// `s` without its leading whitespace.
pub open spec fn trim_start_spec(s: Seq<char>) -> Seq<char>
    decreases s.len(),
{
    if s.len() > 0 && is_uws(s[0]) {
        trim_start_spec(s.drop_first())
    } else {
        s
    }
}

/// `s` without its trailing whitespace.
pub open spec fn trim_end_spec(s: Seq<char>) -> Seq<char>
    decreases s.len(),
{
    if s.len() > 0 && is_uws(s.last()) {
        trim_end_spec(s.drop_last())
    } else {
        s
    }
}

/// `str::trim`: `s` without leading and trailing whitespace.
pub open spec fn trim_spec(s: Seq<char>) -> Seq<char> {
    trim_end_spec(trim_start_spec(s))
}

/// ASCII lowercase of one character.
pub open spec fn ascii_lower(c: char) -> char {
    if 'A' <= c <= 'Z' {
        ((c as u32) + 32) as char
    } else {
        c
    }
}

/// `str::to_ascii_lowercase`.
pub open spec fn lower_spec(s: Seq<char>) -> Seq<char> {
    Seq::new(s.len(), |i: int| ascii_lower(s[i]))
}

/// `kw` occurs in `s` at position `i`.
pub open spec fn occurs_at(s: Seq<char>, kw: Seq<char>, i: int) -> bool {
    0 <= i && i + kw.len() <= s.len() && s.subrange(i, i + kw.len()) == kw
}

/// `kw` occurs somewhere in `s`.
pub open spec fn contains_spec(s: Seq<char>, kw: Seq<char>) -> bool {
    exists|i: int| occurs_at(s, kw, i)
}

/// Every character of `s` is an ASCII digit.
pub open spec fn all_digits(s: Seq<char>) -> bool {
    forall|i: int| 0 <= i < s.len() ==> is_digit_char(#[trigger] s[i])
}

/// Decimal value of a digit sequence.
pub open spec fn dec_value(s: Seq<char>) -> int
    decreases s.len(),
{
    if s.len() == 0 {
        0
    } else {
        dec_value(s.drop_last()) * 10 + (s.last() as int - '0' as int)
    }
}

/// Length of the run of ASCII digits at the start of `s`.
pub open spec fn lead_digits(s: Seq<char>) -> int
    decreases s.len(),
{
    if s.len() > 0 && is_digit_char(s[0]) {
        1 + lead_digits(s.drop_first())
    } else {
        0
    }
}

/// `str::parse::<u32>` on a non-empty run of ASCII digits: its value, or
/// `None` when it does not fit.
pub open spec fn parse_u32_spec(s: Seq<char>) -> Option<u32> {
    if dec_value(s) <= u32::MAX {
        Some(dec_value(s) as u32)
    } else {
        None
    }
}

/// `char::is_whitespace`.
pub fn is_unicode_whitespace(c: char) -> (b: bool)
    ensures
        b == is_uws(c),
{
    ('\t' <= c && c <= '\r') || c == ' ' || c == '\u{85}' || c == '\u{A0}' || c == '\u{1680}' || ('\u{2000}' <= c && c
        <= '\u{200A}') || c == '\u{2028}' || c == '\u{2029}' || c == '\u{202F}' || c == '\u{205F}' || c == '\u{3000}'
}

/// The characters of a string.
pub fn chars_of(s: &str) -> (r: Vec<char>)
    ensures
        r@ == s@,
{
    let n = s.unicode_len();
    let mut r: Vec<char> = Vec::with_capacity(n);
    let mut i: usize = 0;
    while i < n
        invariant
            n == s@.len(),
            i <= n,
            r@ == s@.subrange(0, i as int),
        decreases n - i,
    {
        r.push(s.get_char(i));
        i += 1;
    }
    r
}

/// A copy of `s[lo..hi]`.
pub fn slice_chars(s: &[char], lo: usize, hi: usize) -> (r: Vec<char>)
    requires
        lo <= hi <= s@.len(),
    ensures
        r@ == s@.subrange(lo as int, hi as int),
{
    let mut r: Vec<char> = Vec::with_capacity(hi - lo);
    let mut i = lo;
    while i < hi
        invariant
            lo <= i <= hi <= s@.len(),
            r@ == s@.subrange(lo as int, i as int),
        decreases hi - i,
    {
        r.push(s[i]);
        i += 1;
    }
    r
}

proof fn lemma_trim_start_suffix(s: Seq<char>, k: int)
    requires
        0 <= k <= s.len(),
        forall|i: int| 0 <= i < k ==> is_uws(#[trigger] s[i]),
    ensures
        trim_start_spec(s) == trim_start_spec(s.subrange(k, s.len() as int)),
    decreases k,
{
    if k > 0 {
        assert(s.drop_first().subrange(k - 1, s.drop_first().len() as int) =~= s.subrange(k, s.len() as int));
        lemma_trim_start_suffix(s.drop_first(), k - 1);
    } else {
        assert(s.subrange(0, s.len() as int) =~= s);
    }
}

proof fn lemma_trim_end_prefix(s: Seq<char>, k: int)
    requires
        0 <= k <= s.len(),
        forall|i: int| k <= i < s.len() ==> is_uws(#[trigger] s[i]),
    ensures
        trim_end_spec(s) == trim_end_spec(s.subrange(0, k)),
    decreases s.len() - k,
{
    if k < s.len() {
        assert(s.drop_last().subrange(0, k) =~= s.subrange(0, k));
        lemma_trim_end_prefix(s.drop_last(), k);
    } else {
        assert(s.subrange(0, k) =~= s);
    }
}

/// `str::trim`: drop leading and trailing whitespace.
pub fn trim_chars(s: &[char]) -> (r: Vec<char>)
    ensures
        r@ == trim_spec(s@),
{
    let n = s.len();
    let mut lo: usize = 0;
    while lo < n && is_unicode_whitespace(s[lo])
        invariant
            n == s@.len(),
            lo <= n,
            forall|i: int| 0 <= i < lo ==> is_uws(#[trigger] s@[i]),
        decreases n - lo,
    {
        lo += 1;
    }
    let ghost t = s@.subrange(lo as int, n as int);
    proof {
        lemma_trim_start_suffix(s@, lo as int);
        assert(trim_start_spec(t) == t);
    }
    let mut hi = n;
    while hi > lo && is_unicode_whitespace(s[hi - 1])
        invariant
            n == s@.len(),
            lo <= hi <= n,
            forall|i: int| hi <= i < n ==> is_uws(#[trigger] s@[i]),
        decreases hi,
    {
        hi -= 1;
    }
    proof {
        assert forall|i: int| hi - lo <= i < t.len() implies is_uws(#[trigger] t[i]) by {
            assert(t[i] == s@[lo + i]);
        }
        lemma_trim_end_prefix(t, hi - lo);
        let u = t.subrange(0, hi - lo);
        assert(u =~= s@.subrange(lo as int, hi as int));
        if u.len() > 0 {
            assert(u.last() == s@[hi - 1]);
        }
    }
    slice_chars(s, lo, hi)
}

/// `str::to_ascii_lowercase`.
pub fn lower_chars(s: &[char]) -> (r: Vec<char>)
    ensures
        r@ == lower_spec(s@),
{
    let mut r: Vec<char> = Vec::with_capacity(s.len());
    let mut i: usize = 0;
    while i < s.len()
        invariant
            i <= s@.len(),
            r@.len() == i,
            forall|k: int| 0 <= k < i ==> r@[k] == ascii_lower(s@[k]),
        decreases s@.len() - i,
    {
        let c = s[i];
        let l = if 'A' <= c && c <= 'Z' { ((c as u32) + 32) as u8 as char } else { c };
        proof {
            if 'A' <= c && c <= 'Z' {
                assert((((c as u32) + 32) as u8 as char) == (((c as u32) + 32) as char));
            }
        }
        r.push(l);
        i += 1;
    }
    proof {
        assert(r@ =~= lower_spec(s@));
    }
    r
}

/// Does `kw` occur in `s`?
pub fn contains_chars(s: &[char], kw: &[char]) -> (b: bool)
    ensures
        b == contains_spec(s@, kw@),
{
    let n = s.len();
    let m = kw.len();
    if m > n {
        proof {
            assert forall|i: int| !occurs_at(s@, kw@, i) by {}
        }
        return false;
    }
    let mut i: usize = 0;
    while i <= n - m
        invariant
            n == s@.len(),
            m == kw@.len(),
            m <= n,
            i <= n - m + 1,
            forall|j: int| 0 <= j < i ==> !occurs_at(s@, kw@, j),
        decreases n - i,
    {
        let mut k: usize = 0;
        while k < m && s[i + k] == kw[k]
            invariant
                n == s@.len(),
                m == kw@.len(),
                i + m <= n,
                k <= m,
                forall|q: int| 0 <= q < k ==> s@[i + q] == kw@[q],
            decreases m - k,
        {
            k += 1;
        }
        if k == m {
            proof {
                assert(s@.subrange(i as int, i + m) =~= kw@);
                assert(occurs_at(s@, kw@, i as int));
            }
            return true;
        }
        proof {
            assert(s@.subrange(i as int, i + m)[k as int] != kw@[k as int]);
        }
        i += 1;
    }
    proof {
        assert forall|j: int| !occurs_at(s@, kw@, j) by {
            if 0 <= j && j + m <= n {
                assert(j < i);
            }
        }
    }
    false
}

/// Length of the run of ASCII digits at the start of `s[from..]`.
pub fn leading_digits(s: &[char], from: usize) -> (k: usize)
    requires
        from <= s@.len(),
    ensures
        k == lead_digits(s@.subrange(from as int, s@.len() as int)),
        from + k <= s@.len(),
        forall|i: int| from <= i < from + k ==> is_digit_char(#[trigger] s@[i]),
        from + k < s@.len() ==> !is_digit_char(s@[from + k]),
{
    let n = s.len();
    let mut e = from;
    while e < n && '0' <= s[e] && s[e] <= '9'
        invariant
            n == s@.len(),
            from <= e <= n,
            forall|i: int| from <= i < e ==> is_digit_char(#[trigger] s@[i]),
            lead_digits(s@.subrange(from as int, n as int)) == (e - from) + lead_digits(s@.subrange(e as int, n as int)),
        decreases n - e,
    {
        proof {
            let t = s@.subrange(e as int, n as int);
            assert(t.drop_first() =~= s@.subrange(e + 1, n as int));
        }
        e += 1;
    }
    e - from
}

/// `str::parse::<u32>` on the ASCII digits `s[lo..hi]` (at least one).
pub fn parse_u32_digits(s: &[char], lo: usize, hi: usize) -> (r: Option<u32>)
    requires
        lo < hi <= s@.len(),
        forall|i: int| lo <= i < hi ==> is_digit_char(#[trigger] s@[i]),
    ensures
        r == parse_u32_spec(s@.subrange(lo as int, hi as int)),
{
    let mut v: u32 = 0;
    let mut i = lo;
    while i < hi
        invariant
            lo <= i <= hi <= s@.len(),
            forall|k: int| lo <= k < hi ==> is_digit_char(#[trigger] s@[k]),
            v == dec_value(s@.subrange(lo as int, i as int)),
        decreases hi - i,
    {
        let d = (s[i] as u32) - ('0' as u32);
        proof {
            assert(s@.subrange(lo as int, i + 1).drop_last() =~= s@.subrange(lo as int, i as int));
        }
        match v.checked_mul(10) {
            None => {
                proof {
                    lemma_dec_grows(s@.subrange(lo as int, hi as int), i + 1 - lo);
                    assert(s@.subrange(lo as int, hi as int).subrange(0, i + 1 - lo) =~= s@.subrange(lo as int, i + 1));
                }
                return None;
            },
            Some(t) => match t.checked_add(d) {
                None => {
                    proof {
                        lemma_dec_grows(s@.subrange(lo as int, hi as int), i + 1 - lo);
                        assert(s@.subrange(lo as int, hi as int).subrange(0, i + 1 - lo) =~= s@.subrange(lo as int, i + 1));
                    }
                    return None;
                },
                Some(nv) => {
                    v = nv;
                },
            },
        }
        i += 1;
    }
    Some(v)
}

/// `10^n`.
pub open spec fn pow10(n: nat) -> int
    decreases n,
{
    if n == 0 {
        1
    } else {
        10 * pow10((n - 1) as nat)
    }
}

/// A run of `n` digits is below `10^n`.
pub proof fn lemma_dec_bound(s: Seq<char>)
    requires
        all_digits(s),
    ensures
        0 <= dec_value(s) < pow10(s.len()),
    decreases s.len(),
{
    if s.len() > 0 {
        lemma_dec_bound(s.drop_last());
        assert(is_digit_char(s[s.len() - 1]));
    }
}

/// A run of at most four digits is below 10000.
pub proof fn lemma_dec_small(s: Seq<char>)
    requires
        all_digits(s),
        s.len() <= 4,
    ensures
        0 <= dec_value(s) <= 9999,
{
    lemma_dec_bound(s);
    assert(pow10(0) == 1);
    assert(pow10(1) == 10);
    assert(pow10(2) == 100);
    assert(pow10(3) == 1000);
    assert(pow10(4) == 10000);
}

/// A digit run's length equals its leading-digit count exactly when every
/// character is a digit.
pub proof fn lemma_lead_all(s: Seq<char>)
    ensures
        lead_digits(s) == s.len() <==> all_digits(s),
        0 <= lead_digits(s) <= s.len(),
    decreases s.len(),
{
    if s.len() > 0 {
        lemma_lead_all(s.drop_first());
        if all_digits(s) {
            assert(all_digits(s.drop_first()));
        }
        if lead_digits(s) == s.len() {
            assert forall|i: int| 0 <= i < s.len() implies is_digit_char(#[trigger] s[i]) by {
                if i > 0 {
                    assert(s.drop_first()[i - 1] == s[i]);
                }
            }
        }
    }
}

proof fn lemma_dec_nonneg(s: Seq<char>)
    requires
        all_digits(s),
    ensures
        dec_value(s) >= 0,
    decreases s.len(),
{
    if s.len() > 0 {
        lemma_dec_nonneg(s.drop_last());
    }
}

/// A digit sequence's value is at least that of any of its prefixes.
proof fn lemma_dec_grows(s: Seq<char>, k: int)
    requires
        all_digits(s),
        0 <= k <= s.len(),
    ensures
        dec_value(s.subrange(0, k)) <= dec_value(s),
    decreases s.len() - k,
{
    if k < s.len() {
        assert(s.drop_last().subrange(0, k) =~= s.subrange(0, k));
        lemma_dec_grows(s.drop_last(), k);
        lemma_dec_nonneg(s.drop_last());
    } else {
        assert(s.subrange(0, k) =~= s);
    }
}

} // verus!
