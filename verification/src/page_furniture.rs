//! Page furniture detection: header, footer and page-number lines.
//!
//! A line is furniture when its box lies fully inside the top or bottom 8%
//! band of the page, it is short (at most 60 characters once trimmed) or
//! reads as a page number, and it carries no amount label (`netto`,
//! `brutto`, `summe`). The page number is read from the first qualifying
//! footer line with a page-number shape, else from the first such header
//! line; values above 9999 are refused. Page-number shapes, matched on the
//! whole trimmed, lowercased line: `7`, `- 42 -`, `seite 3 (von 12)`,
//! `page 3 (of 12)`, `12 / 30`.
use vstd::prelude::*;
use crate::text::{occurs_at, all_digits, chars_of, contains_chars, contains_spec, dec_value, is_digit_char, is_unicode_whitespace, is_uws, lead_digits, leading_digits, lemma_dec_small, lemma_lead_all, lower_chars, lower_spec, parse_u32_digits, parse_u32_spec, slice_chars, trim_chars, trim_spec};

verus! {

/// A recognized word: its text and box `(left, top, right, bottom)`.
#[derive(Debug)]
pub struct DocWord {
    /// The word's text.
    pub text: String,
    /// The word's box.
    pub bbox: (i32, i32, i32, i32),
}

/// A text line: its box `(left, top, right, bottom)` and its words.
#[derive(Debug)]
pub struct DocLine {
    /// The line's box.
    pub bbox: (i32, i32, i32, i32),
    /// The line's words in reading order.
    pub words: Vec<DocWord>,
}

/// A page: its size and its lines, top to bottom.
#[derive(Debug)]
pub struct DocPage {
    /// Page width in pixels.
    pub width: u32,
    /// Page height in pixels.
    pub height: u32,
    /// The page's lines.
    pub lines: Vec<DocLine>,
}

/// The result of a page-furniture scan; all indices are into
/// [`DocPage::lines`].
#[derive(Clone, Debug, PartialEq, Eq)]
pub struct PageFurniture {
    /// Indices of lines classified as header furniture.
    pub header_lines: Vec<usize>,
    /// Indices of lines classified as footer furniture.
    pub footer_lines: Vec<usize>,
    /// The extracted page number, if a qualifying line matched a
    /// page-number shape.
    pub page_number: Option<u32>,
    /// Index of the line the page number was read from.
    pub page_number_line: Option<usize>,
}

/// Which band a line's box falls fully inside.
#[derive(Clone, Copy, Debug, PartialEq, Eq, Structural)]
pub enum Band {
    /// The top band.
    Header,
    /// The bottom band.
    Footer,
}

/// A line whose joined text is at most this long is short enough to be
/// furniture on length alone.
pub const MAX_FURNITURE_TEXT_CHARS: usize = 60;

/// Parsed page numbers above this are rejected as spurious.
pub const MAX_PAGE_NUMBER: u32 = 9999;

/// The height of each band: 8% of the page height, rounded to the nearest
/// pixel (never a tie for an integer height).
pub open spec fn band_extent_spec(page_height: u32) -> int {
    (8 * page_height + 50) / 100
}

/// The band a box `(left, top, right, bottom)` lies fully inside, if any.
pub open spec fn band_spec(bbox: (i32, i32, i32, i32), header_bottom: int, footer_top: int, page_bottom: int) -> Option<Band> {
    if bbox.1 >= 0 && bbox.3 <= header_bottom {
        Some(Band::Header)
    } else if bbox.1 >= footer_top && bbox.3 <= page_bottom {
        Some(Band::Footer)
    } else {
        None
    }
}

/// The words' texts joined with single spaces.
pub open spec fn line_text_spec(ws: Seq<DocWord>) -> Seq<char>
    decreases ws.len(),
{
    if ws.len() == 0 {
        Seq::empty()
    } else if ws.len() == 1 {
        ws[0].text@
    } else {
        line_text_spec(ws.drop_last()) + seq![' '] + ws.last().text@
    }
}

/// `s` without any whitespace.
pub open spec fn strip_ws_spec(s: Seq<char>) -> Seq<char>
    decreases s.len(),
{
    if s.len() == 0 {
        s
    } else if is_uws(s.last()) {
        strip_ws_spec(s.drop_last())
    } else {
        strip_ws_spec(s.drop_last()).push(s.last())
    }
}

/// Shape `\d{1,4}`.
pub open spec fn bare_spec(s: Seq<char>) -> Option<u32> {
    if 1 <= s.len() <= 4 && all_digits(s) {
        Some(dec_value(s) as u32)
    } else {
        None
    }
}

/// Shape `- \d{1,4} -`, whitespace anywhere ignored.
pub open spec fn dashed_spec(s: Seq<char>) -> Option<u32> {
    let t = strip_ws_spec(s);
    if t.len() >= 2 && t[0] == '-' && t.last() == '-' {
        bare_spec(t.subrange(1, t.len() - 1))
    } else {
        None
    }
}

/// `s` starts with `p`.
pub open spec fn starts_with(s: Seq<char>, p: Seq<char>) -> bool {
    p.len() <= s.len() && s.subrange(0, p.len() as int) == p
}

/// Shape `<label> \d+( <connector> \d+)?`, anchored to the whole string;
/// the first number is the result.
pub open spec fn labeled_spec(s: Seq<char>, label: Seq<char>, connector: Seq<char>) -> Option<u32> {
    let pre = label.push(' ');
    if !starts_with(s, pre) {
        None
    } else {
        let rest = s.subrange(pre.len() as int, s.len() as int);
        let k = lead_digits(rest);
        if k == 0 {
            None
        } else {
            match parse_u32_spec(rest.subrange(0, k)) {
                None => None,
                Some(num) => {
                    let rem = trim_spec(rest.subrange(k, rest.len() as int));
                    if rem.len() == 0 {
                        Some(num)
                    } else {
                        let cp = connector.push(' ');
                        if !starts_with(rem, cp) {
                            None
                        } else {
                            let after = rem.subrange(cp.len() as int, rem.len() as int);
                            let k2 = lead_digits(after);
                            if k2 == 0 || trim_spec(after.subrange(k2, after.len() as int)).len() != 0 {
                                None
                            } else {
                                Some(num)
                            }
                        }
                    }
                },
            }
        }
    }
}

/// Index of the first `c` in `s` at or after `i`, or `-1`.
pub open spec fn first_from(s: Seq<char>, c: char, i: int) -> int
    decreases s.len() - i,
{
    if i < 0 || i >= s.len() {
        -1
    } else if s[i] == c {
        i
    } else {
        first_from(s, c, i + 1)
    }
}

/// Shape `\d+ / \d+` (split at the first `/`, both sides trimmed); the
/// first number is the result.
pub open spec fn slash_spec(s: Seq<char>) -> Option<u32> {
    let p = first_from(s, '/', 0);
    if p < 0 {
        None
    } else {
        let left = trim_spec(s.subrange(0, p));
        let right = trim_spec(s.subrange(p + 1, s.len() as int));
        if left.len() == 0 || right.len() == 0 || !all_digits(left) || !all_digits(right) {
            None
        } else {
            parse_u32_spec(left)
        }
    }
}

pub open spec fn seite() -> Seq<char> {
    seq!['s', 'e', 'i', 't', 'e']
}

pub open spec fn von() -> Seq<char> {
    seq!['v', 'o', 'n']
}

pub open spec fn page_word() -> Seq<char> {
    seq!['p', 'a', 'g', 'e']
}

pub open spec fn of_word() -> Seq<char> {
    seq!['o', 'f']
}

/// The page number read from a trimmed, lowercased line: the first shape
/// that matches the whole text, tried in the order bare, dashed, `seite`,
/// `page`, slash.
pub open spec fn shape_spec(s: Seq<char>) -> Option<u32> {
    if s.len() == 0 {
        None
    } else if bare_spec(s) is Some {
        bare_spec(s)
    } else if dashed_spec(s) is Some {
        dashed_spec(s)
    } else if labeled_spec(s, seite(), von()) is Some {
        labeled_spec(s, seite(), von())
    } else if labeled_spec(s, page_word(), of_word()) is Some {
        labeled_spec(s, page_word(), of_word())
    } else {
        slash_spec(s)
    }
}

/// The text contains an amount label.
pub open spec fn has_amount_spec(s: Seq<char>) -> bool {
    contains_spec(s, seq!['n', 'e', 't', 't', 'o']) || contains_spec(s, seq!['b', 'r', 'u', 't', 't', 'o']) || contains_spec(
        s,
        seq!['s', 'u', 'm', 'm', 'e'],
    )
}

/// A line's trimmed, lowercased text.
pub open spec fn line_lower(l: DocLine) -> Seq<char> {
    lower_spec(trim_spec(line_text_spec(l.words@)))
}

/// The line lies in a band, is short or reads as a page number, and has no
/// amount label.
pub open spec fn qualifies(l: DocLine, hb: int, ft: int, pb: int) -> bool {
    &&& band_spec(l.bbox, hb, ft, pb) is Some
    &&& trim_spec(line_text_spec(l.words@)).len() <= 60 || shape_spec(line_lower(l)) is Some
    &&& !has_amount_spec(line_lower(l))
}

/// The qualifying lines of `band` among the first `n`, in order, each with
/// its page-number shape.
pub open spec fn cands(lines: Seq<DocLine>, n: int, band: Band, hb: int, ft: int, pb: int) -> Seq<(usize, Option<u32>)>
    decreases n,
{
    if n <= 0 {
        Seq::empty()
    } else {
        let l = lines[n - 1];
        let rest = cands(lines, n - 1, band, hb, ft, pb);
        if qualifies(l, hb, ft, pb) && band_spec(l.bbox, hb, ft, pb) == Some(band) {
            rest.push(((n - 1) as usize, shape_spec(line_lower(l))))
        } else {
            rest
        }
    }
}

/// The first candidate carrying a page number of at most 9999.
pub open spec fn pick_first(cs: Seq<(usize, Option<u32>)>) -> Option<(usize, u32)>
    decreases cs.len(),
{
    if cs.len() == 0 {
        None
    } else {
        match cs[0].1 {
            Some(k) if k <= 9999 => Some((cs[0].0, k)),
            _ => pick_first(cs.drop_first()),
        }
    }
}

/// The indices of a candidate list.
pub open spec fn indices_of(cs: Seq<(usize, Option<u32>)>) -> Seq<usize> {
    Seq::new(cs.len(), |i: int| cs[i].0)
}

/// The band geometry of a page: `(header_bottom, footer_top, page_bottom)`.
pub open spec fn geometry(page_height: u32) -> (int, int, int) {
    let pb = (page_height as i32) as int;
    (band_extent_spec(page_height), pb - band_extent_spec(page_height), pb)
}

/// Every candidate of a band is one of the first `n` lines and qualifies.
proof fn lemma_cands_qualify(lines: Seq<DocLine>, n: int, band: Band, hb: int, ft: int, pb: int)
    requires
        0 <= n <= lines.len(),
        lines.len() <= usize::MAX,
    ensures
        forall|j: int|
            0 <= j < cands(lines, n, band, hb, ft, pb).len() ==> {
                let c = #[trigger] cands(lines, n, band, hb, ft, pb)[j];
                &&& 0 <= c.0 < n
                &&& qualifies(lines[c.0 as int], hb, ft, pb)
            },
    decreases n,
{
    if n > 0 {
        lemma_cands_qualify(lines, n - 1, band, hb, ft, pb);
        let rest = cands(lines, n - 1, band, hb, ft, pb);
        let all = cands(lines, n, band, hb, ft, pb);
        assert forall|j: int| 0 <= j < all.len() implies {
            let c = #[trigger] all[j];
            &&& 0 <= c.0 < n
            &&& qualifies(lines[c.0 as int], hb, ft, pb)
        } by {
            if j < rest.len() {
                assert(all[j] == rest[j]);
            }
        }
    }
}

/// Whitespace stripping leaves a text without whitespace unchanged.
proof fn lemma_strip_ws_noop(s: Seq<char>)
    requires
        forall|i: int| 0 <= i < s.len() ==> !is_uws(#[trigger] s[i]),
    ensures
        strip_ws_spec(s) == s,
    decreases s.len(),
{
    if s.len() > 0 {
        lemma_strip_ws_noop(s.drop_last());
        assert(s.drop_last().push(s.last()) =~= s);
    }
}

/// A text without `c` from `i` on has no `c` to find.
proof fn lemma_first_from_absent(s: Seq<char>, c: char, i: int)
    requires
        0 <= i,
        forall|j: int| 0 <= j < s.len() ==> #[trigger] s[j] != c,
    ensures
        first_from(s, c, i) == -1,
    decreases s.len() - i,
{
    if i < s.len() {
        lemma_first_from_absent(s, c, i + 1);
    }
}

/// Law: a line that is nothing but 1 to 4 decimal digits reads as their
/// value; a run of 5 or more digits is no page number at all; and digits
/// wrapped in hyphens, `-` digits `-`, read as the value of the digits.
pub proof fn lemma_digit_page_numbers(d: Seq<char>)
    requires
        d.len() >= 1,
        all_digits(d),
    ensures
        d.len() <= 4 ==> shape_spec(d) == Some(dec_value(d) as u32),
        d.len() >= 5 ==> shape_spec(d) is None,
        d.len() <= 4 ==> shape_spec(seq!['-'] + d + seq!['-']) == Some(dec_value(d) as u32),
{
    assert forall|i: int| 0 <= i < d.len() implies !is_uws(#[trigger] d[i]) && d[i] != '/' by {
        assert(is_digit_char(d[i]));
    }
    if d.len() >= 5 {
        lemma_strip_ws_noop(d);
        assert(is_digit_char(d[0]));
        assert(!starts_with(d, seite().push(' '))) by {
            if starts_with(d, seite().push(' ')) {
                assert(d.subrange(0, 6)[0] == d[0]);
            }
        }
        assert(!starts_with(d, page_word().push(' '))) by {
            if starts_with(d, page_word().push(' ')) {
                assert(d.subrange(0, 5)[0] == d[0]);
            }
        }
        lemma_first_from_absent(d, '/', 0);
    }
    let t = seq!['-'] + d + seq!['-'];
    assert forall|i: int| 0 <= i < t.len() implies !is_uws(#[trigger] t[i]) by {
        if 0 < i < t.len() - 1 {
            assert(t[i] == d[i - 1]);
        }
    }
    lemma_strip_ws_noop(t);
    assert(t.subrange(1, t.len() - 1) =~= d);
    assert(!all_digits(t)) by {
        assert(!is_digit_char(t[0]));
    }
}

/// Law: header furniture lies fully inside the top 8% of the page (rounded
/// to the nearest pixel) and footer furniture fully inside the bottom 8%;
/// each such line is at most 60 characters long or reads as a page number.
pub proof fn lemma_furniture_lines_lie_in_bands(lines: Seq<DocLine>, page_height: u32)
    requires
        lines.len() <= usize::MAX,
    ensures
        ({
            let (hb, ft, pb) = geometry(page_height);
            let n = lines.len() as int;
            let e = (8 * page_height + 50) / 100;
            let ph = (page_height as i32) as int;
            let hc = cands(lines, n, Band::Header, hb, ft, pb);
            let fc = cands(lines, n, Band::Footer, hb, ft, pb);
            &&& forall|j: int| 0 <= j < hc.len() ==> {
                let l = lines[(#[trigger] hc[j]).0 as int];
                &&& 0 <= hc[j].0 < n
                &&& 0 <= l.bbox.1 && l.bbox.3 <= e
                &&& (trim_spec(line_text_spec(l.words@)).len() <= 60 || shape_spec(line_lower(l)) is Some)
            }
            &&& forall|j: int| 0 <= j < fc.len() ==> {
                let l = lines[(#[trigger] fc[j]).0 as int];
                &&& 0 <= fc[j].0 < n
                &&& ph - e <= l.bbox.1 && l.bbox.3 <= ph
                &&& (trim_spec(line_text_spec(l.words@)).len() <= 60 || shape_spec(line_lower(l)) is Some)
            }
        }),
{
    let (hb, ft, pb) = geometry(page_height);
    let n = lines.len() as int;
    lemma_cands_qualify(lines, n, Band::Header, hb, ft, pb);
    lemma_cands_qualify(lines, n, Band::Footer, hb, ft, pb);
    lemma_cands_in_band(lines, n, Band::Header, hb, ft, pb);
    lemma_cands_in_band(lines, n, Band::Footer, hb, ft, pb);
}

/// Every candidate of a band lies in that band.
proof fn lemma_cands_in_band(lines: Seq<DocLine>, n: int, band: Band, hb: int, ft: int, pb: int)
    requires
        0 <= n <= lines.len(),
        lines.len() <= usize::MAX,
    ensures
        forall|j: int|
            0 <= j < cands(lines, n, band, hb, ft, pb).len() ==> band_spec(
                lines[(#[trigger] cands(lines, n, band, hb, ft, pb)[j]).0 as int].bbox,
                hb,
                ft,
                pb,
            ) == Some(band),
    decreases n,
{
    if n > 0 {
        lemma_cands_in_band(lines, n - 1, band, hb, ft, pb);
        let rest = cands(lines, n - 1, band, hb, ft, pb);
        let all = cands(lines, n, band, hb, ft, pb);
        assert forall|j: int| 0 <= j < all.len() implies band_spec(lines[(#[trigger] all[j]).0 as int].bbox, hb, ft, pb) == Some(band) by {
            if j < rest.len() {
                assert(all[j] == rest[j]);
            }
        }
    }
}

/// Law: a page number picked from a candidate list is at most 9999 and is
/// the page-number reading of one of the candidates, and no earlier
/// candidate carries a page number of at most 9999.
pub proof fn lemma_picked_page_number(cs: Seq<(usize, Option<u32>)>)
    ensures
        pick_first(cs) matches Some((i, k)) ==> {
            &&& k <= 9999
            &&& exists|j: int| 0 <= j < cs.len() && #[trigger] cs[j] == (i, Some(k)) && forall|q: int|
                0 <= q < j ==> !((#[trigger] cs[q]).1 matches Some(v) && v <= 9999)
        },
        pick_first(cs) is None ==> forall|j: int| 0 <= j < cs.len() ==> !((#[trigger] cs[j]).1 matches Some(v) && v <= 9999),
    decreases cs.len(),
{
    if cs.len() > 0 {
        let t = cs.drop_first();
        lemma_picked_page_number(t);
        match cs[0].1 {
            Some(k) if k <= 9999 => {
                assert(cs[0] == (cs[0].0, Some(k)));
            },
            _ => {
                if let Some((i, k)) = pick_first(cs) {
                    let j = choose|j: int| 0 <= j < t.len() && #[trigger] t[j] == (i, Some(k)) && forall|q: int|
                        0 <= q < j ==> !((#[trigger] t[q]).1 matches Some(v) && v <= 9999);
                    assert(cs[j + 1] == t[j]);
                    assert forall|q: int| 0 <= q < j + 1 implies !((#[trigger] cs[q]).1 matches Some(v) && v <= 9999) by {
                        if q > 0 {
                            assert(cs[q] == t[q - 1]);
                        }
                    }
                } else {
                    assert forall|j: int| 0 <= j < cs.len() implies !((#[trigger] cs[j]).1 matches Some(v) && v <= 9999) by {
                        if j > 0 {
                            assert(cs[j] == t[j - 1]);
                        }
                    }
                }
            },
        }
    }
}

/// Law: a line whose trimmed, lowercased text contains an amount label —
/// `netto`, `brutto` or `summe` — is never header or footer furniture,
/// whatever its place on the page.
pub proof fn lemma_amount_lines_are_not_furniture(lines: Seq<DocLine>, page_height: u32, k: int, kw: Seq<char>, i: int)
    requires
        0 <= k < lines.len(),
        lines.len() <= usize::MAX,
        kw == seq!['n', 'e', 't', 't', 'o'] || kw == seq!['b', 'r', 'u', 't', 't', 'o'] || kw == seq!['s', 'u', 'm', 'm', 'e'],
        0 <= i,
        i + kw.len() <= line_lower(lines[k]).len(),
        line_lower(lines[k]).subrange(i, i + kw.len()) == kw,
    ensures
        ({
            let (hb, ft, pb) = geometry(page_height);
            let n = lines.len() as int;
            &&& !indices_of(cands(lines, n, Band::Header, hb, ft, pb)).contains(k as usize)
            &&& !indices_of(cands(lines, n, Band::Footer, hb, ft, pb)).contains(k as usize)
        }),
{
    let (hb, ft, pb) = geometry(page_height);
    let n = lines.len() as int;
    let s = line_lower(lines[k]);
    assert(occurs_at(s, kw, i));
    assert(has_amount_spec(s));
    lemma_cands_qualify(lines, n, Band::Header, hb, ft, pb);
    lemma_cands_qualify(lines, n, Band::Footer, hb, ft, pb);
    let hc = cands(lines, n, Band::Header, hb, ft, pb);
    let fc = cands(lines, n, Band::Footer, hb, ft, pb);
    if indices_of(hc).contains(k as usize) {
        let j = choose|j: int| 0 <= j < indices_of(hc).len() && indices_of(hc)[j] == k as usize;
        assert(hc[j].0 == k);
    }
    if indices_of(fc).contains(k as usize) {
        let j = choose|j: int| 0 <= j < indices_of(fc).len() && indices_of(fc)[j] == k as usize;
        assert(fc[j].0 == k);
    }
}

/// Round `page_height · 8%` to the nearest pixel.
fn band_extent(page_height: u32) -> (r: i32)
    ensures
        r == band_extent_spec(page_height),
{
    ((8 * (page_height as u64) + 50) / 100) as i32
}

/// The band a line's box lies fully inside (a box straddling a band edge
/// is in neither).
fn classify_band(bbox: (i32, i32, i32, i32), header_bottom: i32, footer_top: i32, page_bottom: i32) -> (r: Option<Band>)
    ensures
        r == band_spec(bbox, header_bottom as int, footer_top as int, page_bottom as int),
{
    let (_, top, _, bottom) = bbox;
    if top >= 0 && bottom <= header_bottom {
        Some(Band::Header)
    } else if top >= footer_top && bottom <= page_bottom {
        Some(Band::Footer)
    } else {
        None
    }
}

/// Join a line's words with single spaces.
fn line_text(line: &DocLine) -> (r: Vec<char>)
    ensures
        r@ == line_text_spec(line.words@),
{
    let ws = &line.words;
    let mut r: Vec<char> = Vec::new();
    let mut k: usize = 0;
    while k < ws.len()
        invariant
            k <= ws@.len(),
            r@ == line_text_spec(ws@.subrange(0, k as int)),
        decreases ws@.len() - k,
    {
        let t = chars_of(ws[k].text.as_str());
        let ghost before = r@;
        if k > 0 {
            r.push(' ');
        }
        let mut j: usize = 0;
        while j < t.len()
            invariant
                j <= t@.len(),
                r@ == (if k > 0 { before + seq![' '] } else { before }) + t@.subrange(0, j as int),
            decreases t@.len() - j,
        {
            r.push(t[j]);
            j += 1;
        }
        proof {
            let p = ws@.subrange(0, k + 1);
            assert(p.drop_last() =~= ws@.subrange(0, k as int));
            assert(t@.subrange(0, t@.len() as int) =~= t@);
            if k == 0 {
                assert(r@ =~= p[0].text@);
            } else {
                assert(r@ =~= line_text_spec(p.drop_last()) + seq![' '] + p.last().text@);
            }
        }
        k += 1;
    }
    proof {
        assert(ws@.subrange(0, ws@.len() as int) =~= ws@);
    }
    r
}

/// Does the lowercased text contain an amount label?
fn has_amount_label(lower: &[char]) -> (b: bool)
    ensures
        b == has_amount_spec(lower@),
{
    let netto = ['n', 'e', 't', 't', 'o'];
    let brutto = ['b', 'r', 'u', 't', 't', 'o'];
    let summe = ['s', 'u', 'm', 'm', 'e'];
    let a = contains_chars(lower, &netto);
    let b2 = contains_chars(lower, &brutto);
    let c = contains_chars(lower, &summe);
    proof {
        assert(netto@ =~= seq!['n', 'e', 't', 't', 'o']);
        assert(brutto@ =~= seq!['b', 'r', 'u', 't', 't', 'o']);
        assert(summe@ =~= seq!['s', 'u', 'm', 'm', 'e']);
    }
    a || b2 || c
}

/// `\d{1,4}`: the whole text is one to four ASCII digits.
fn parse_bare_number(s: &[char]) -> (r: Option<u32>)
    ensures
        r == bare_spec(s@),
{
    let n = s.len();
    if n == 0 || n > 4 {
        return None;
    }
    let k = leading_digits(s, 0);
    proof {
        assert(s@.subrange(0, n as int) =~= s@);
        lemma_lead_all(s@);
    }
    if k != n {
        return None;
    }
    proof {
        lemma_dec_small(s@);
    }
    parse_u32_digits(s, 0, n)
}

/// `- \d{1,4} -`, whitespace anywhere ignored.
fn parse_dashed_number(s: &[char]) -> (r: Option<u32>)
    ensures
        r == dashed_spec(s@),
{
    let mut t: Vec<char> = Vec::new();
    let mut i: usize = 0;
    while i < s.len()
        invariant
            i <= s@.len(),
            t@ == strip_ws_spec(s@.subrange(0, i as int)),
        decreases s@.len() - i,
    {
        let c = s[i];
        proof {
            assert(s@.subrange(0, i + 1).drop_last() =~= s@.subrange(0, i as int));
        }
        if !is_unicode_whitespace(c) {
            t.push(c);
        }
        i += 1;
    }
    proof {
        assert(s@.subrange(0, s@.len() as int) =~= s@);
    }
    let m = t.len();
    if m < 2 || t[0] != '-' || t[m - 1] != '-' {
        return None;
    }
    let inner = slice_chars(&t, 1, m - 1);
    parse_bare_number(&inner)
}

/// Does `s[at..]` start with `p`?
fn starts_with_at(s: &[char], at: usize, p: &[char]) -> (b: bool)
    requires
        at <= s@.len(),
    ensures
        b == starts_with(s@.subrange(at as int, s@.len() as int), p@),
{
    let n = s.len();
    let m = p.len();
    if m > n - at {
        return false;
    }
    let mut k: usize = 0;
    while k < m
        invariant
            n == s@.len(),
            m == p@.len(),
            at + m <= n,
            k <= m,
            forall|q: int| 0 <= q < k ==> s@[at + q] == p@[q],
        decreases m - k,
    {
        if s[at + k] != p[k] {
            proof {
                assert(s@.subrange(at as int, n as int).subrange(0, m as int)[k as int] != p@[k as int]);
            }
            return false;
        }
        k += 1;
    }
    proof {
        assert(s@.subrange(at as int, n as int).subrange(0, m as int) =~= p@);
    }
    true
}

/// `<label> \d+( <connector> \d+)?`, anchored to the whole string.
fn parse_labeled_page(s: &[char], label: &[char], connector: &[char]) -> (r: Option<u32>)
    ensures
        r == labeled_spec(s@, label@, connector@),
{
    let n = s.len();
    let mut pre: Vec<char> = slice_chars(label, 0, label.len());
    pre.push(' ');
    proof {
        assert(pre@ =~= label@.push(' '));
        assert(s@.subrange(0, n as int) =~= s@);
    }
    if !starts_with_at(s, 0, &pre) {
        return None;
    }
    let pl = pre.len();
    let ghost rest = s@.subrange(pl as int, n as int);
    let k = leading_digits(s, pl);
    if k == 0 {
        return None;
    }
    proof {
        assert(rest.subrange(0, k as int) =~= s@.subrange(pl as int, pl + k));
        assert(rest.subrange(k as int, rest.len() as int) =~= s@.subrange(pl + k, n as int));
    }
    let num = match parse_u32_digits(s, pl, pl + k) {
        None => return None,
        Some(v) => v,
    };
    let tail = slice_chars(s, pl + k, n);
    let rem = trim_chars(&tail);
    if rem.len() == 0 {
        return Some(num);
    }
    let mut cp: Vec<char> = slice_chars(connector, 0, connector.len());
    cp.push(' ');
    proof {
        assert(cp@ =~= connector@.push(' '));
        assert(rem@.subrange(0, rem@.len() as int) =~= rem@);
    }
    if !starts_with_at(&rem, 0, &cp) {
        return None;
    }
    let cl = cp.len();
    let ghost after = rem@.subrange(cl as int, rem@.len() as int);
    let k2 = leading_digits(&rem, cl);
    let tail2 = slice_chars(&rem, cl + k2, rem.len());
    let rest2 = trim_chars(&tail2);
    proof {
        assert(after.subrange(k2 as int, after.len() as int) =~= rem@.subrange(cl + k2, rem@.len() as int));
    }
    if k2 == 0 || rest2.len() != 0 {
        return None;
    }
    Some(num)
}

/// `\d+ / \d+`, anchored to the whole string; the first number is taken.
fn parse_slash_number(s: &[char]) -> (r: Option<u32>)
    ensures
        r == slash_spec(s@),
{
    let n = s.len();
    let mut p: usize = 0;
    while p < n && s[p] != '/'
        invariant
            n == s@.len(),
            p <= n,
            first_from(s@, '/', 0) == first_from(s@, '/', p as int),
        decreases n - p,
    {
        p += 1;
    }
    if p == n {
        return None;
    }
    let lraw = slice_chars(s, 0, p);
    let rraw = slice_chars(s, p + 1, n);
    let left = trim_chars(&lraw);
    let right = trim_chars(&rraw);
    if left.len() == 0 || right.len() == 0 {
        return None;
    }
    let kl = leading_digits(&left, 0);
    let kr = leading_digits(&right, 0);
    proof {
        assert(left@.subrange(0, left@.len() as int) =~= left@);
        assert(right@.subrange(0, right@.len() as int) =~= right@);
        lemma_lead_all(left@);
        lemma_lead_all(right@);
    }
    if kl != left.len() || kr != right.len() {
        return None;
    }
    let r = parse_u32_digits(&left, 0, left.len());
    proof {
        assert(left@.subrange(0, left@.len() as int) =~= left@);
    }
    r
}

/// The page number the whole (trimmed, lowercased) text reads as, trying
/// the shapes bare, dashed, `seite N (von M)`, `page N (of M)`, slash.
pub fn page_number_shape(lower: &str) -> (r: Option<u32>)
    ensures
        r == shape_spec(lower@),
{
    let cs = chars_of(lower);
    shape_of_chars(&cs)
}

/// [`page_number_shape`] on a character slice.
fn shape_of_chars(lower: &[char]) -> (r: Option<u32>)
    ensures
        r == shape_spec(lower@),
{
    if lower.len() == 0 {
        return None;
    }
    let bare = parse_bare_number(lower);
    if bare.is_some() {
        return bare;
    }
    let dashed = parse_dashed_number(lower);
    if dashed.is_some() {
        return dashed;
    }
    let de_label = ['s', 'e', 'i', 't', 'e'];
    let de_conn = ['v', 'o', 'n'];
    proof {
        assert(de_label@ =~= seite());
        assert(de_conn@ =~= von());
    }
    let de = parse_labeled_page(lower, &de_label, &de_conn);
    if de.is_some() {
        return de;
    }
    let en_label = ['p', 'a', 'g', 'e'];
    let en_conn = ['o', 'f'];
    proof {
        assert(en_label@ =~= page_word());
        assert(en_conn@ =~= of_word());
    }
    let en = parse_labeled_page(lower, &en_label, &en_conn);
    if en.is_some() {
        return en;
    }
    parse_slash_number(lower)
}

/// The first candidate of `cs` carrying a page number of at most 9999.
fn pick_page_number(cs: &Vec<(usize, Option<u32>)>) -> (r: Option<(usize, u32)>)
    ensures
        r == pick_first(cs@),
{
    let mut i: usize = 0;
    proof {
        assert(cs@.subrange(0, cs@.len() as int) =~= cs@);
    }
    while i < cs.len()
        invariant
            i <= cs@.len(),
            pick_first(cs@) == pick_first(cs@.subrange(i as int, cs@.len() as int)),
        decreases cs@.len() - i,
    {
        let (idx, n) = cs[i];
        proof {
            let t = cs@.subrange(i as int, cs@.len() as int);
            assert(t.drop_first() =~= cs@.subrange(i + 1, cs@.len() as int));
            assert(t[0] == cs@[i as int]);
        }
        match n {
            Some(k) => {
                if k <= MAX_PAGE_NUMBER {
                    return Some((idx, k));
                }
            },
            None => {},
        }
        i += 1;
    }
    proof {
        assert(cs@.subrange(i as int, cs@.len() as int).len() == 0);
    }
    None
}

/// Detect header/footer furniture lines and a page number on `page` (see
/// the module docs for the heuristics).
pub fn detect_page_furniture(page: &DocPage) -> (r: PageFurniture)
    requires
        (page.height as i32) - band_extent_spec(page.height) >= i32::MIN,
    ensures
        ({
            let (hb, ft, pb) = geometry(page.height);
            let hc = cands(page.lines@, page.lines@.len() as int, Band::Header, hb, ft, pb);
            let fc = cands(page.lines@, page.lines@.len() as int, Band::Footer, hb, ft, pb);
            let picked = if pick_first(fc) is Some { pick_first(fc) } else { pick_first(hc) };
            &&& r.header_lines@ == indices_of(hc)
            &&& r.footer_lines@ == indices_of(fc)
            &&& r.page_number == (match picked { Some(p) => Some(p.1), None => None })
            &&& r.page_number_line == (match picked { Some(p) => Some(p.0), None => None })
        }),
{
    let ghost g = geometry(page.height);
    let page_bottom = page.height as i32;
    let header_bottom = band_extent(page.height);
    let footer_top = page_bottom - band_extent(page.height);
    let lines = &page.lines;
    let mut header_lines: Vec<usize> = Vec::new();
    let mut footer_lines: Vec<usize> = Vec::new();
    let mut header_candidates: Vec<(usize, Option<u32>)> = Vec::new();
    let mut footer_candidates: Vec<(usize, Option<u32>)> = Vec::new();
    let mut idx: usize = 0;
    while idx < lines.len()
        invariant
            g == geometry(page.height),
            g == (header_bottom as int, footer_top as int, page_bottom as int),
            lines@ == page.lines@,
            idx <= lines@.len(),
            header_candidates@ == cands(lines@, idx as int, Band::Header, g.0, g.1, g.2),
            footer_candidates@ == cands(lines@, idx as int, Band::Footer, g.0, g.1, g.2),
            header_lines@ == indices_of(header_candidates@),
            footer_lines@ == indices_of(footer_candidates@),
        decreases lines@.len() - idx,
    {
        let line = &lines[idx];
        let band = classify_band(line.bbox, header_bottom, footer_top, page_bottom);
        proof {
            assert(indices_of(header_candidates@) =~= header_lines@);
        }
        match band {
            None => {},
            Some(b) => {
                let text = line_text(line);
                let trimmed = trim_chars(&text);
                let lower = lower_chars(&trimmed);
                let is_short = trimmed.len() <= MAX_FURNITURE_TEXT_CHARS;
                let shape_number = shape_of_chars(&lower);
                if is_short || shape_number.is_some() {
                    if !has_amount_label(&lower) {
                        match b {
                            Band::Header => {
                                header_lines.push(idx);
                                header_candidates.push((idx, shape_number));
                            },
                            Band::Footer => {
                                footer_lines.push(idx);
                                footer_candidates.push((idx, shape_number));
                            },
                        }
                    }
                }
            },
        }
        proof {
            assert(lines@[idx as int] == *line);
            assert(header_lines@ =~= indices_of(header_candidates@));
            assert(footer_lines@ =~= indices_of(footer_candidates@));
        }
        idx += 1;
    }
    let from_footer = pick_page_number(&footer_candidates);
    let picked = if from_footer.is_some() { from_footer } else { pick_page_number(&header_candidates) };
    let (page_number, page_number_line) = match picked {
        Some((i, n)) => (Some(n), Some(i)),
        None => (None, None),
    };
    PageFurniture { header_lines, footer_lines, page_number, page_number_line }
}

} // verus!
