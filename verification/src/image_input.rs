//! Image front-end: parsing a binary 8-bit grey PGM (`P5`) file into a
//! grey pixel buffer, and the integer bilinear interpolation that grey
//! rescaling samples with.
use vstd::prelude::*;
use crate::grid::{idx, lemma_idx_bounds};

verus! {

/// An error parsing a PGM image file.
#[derive(Debug, Clone, Copy, PartialEq, Eq, Structural)]
pub enum PgmError {
    /// Not a `P5` (binary grey) PGM.
    BadMagic,
    /// A header field (width/height/maxval) was missing or malformed.
    BadHeader,
    /// `maxval` exceeds 255 (16-bit samples are out of scope).
    Not8Bit,
    /// The pixel data is shorter than `width × height`.
    Truncated,
}

impl PgmError {
    /// A short human-readable description of the error.
    pub fn message(&self) -> (s: &'static str)
        ensures
            *self == PgmError::BadMagic ==> s@ == "not a P5 PGM"@,
            *self == PgmError::BadHeader ==> s@ == "malformed PGM header"@,
            *self == PgmError::Not8Bit ==> s@ == "PGM maxval > 255 (16-bit not supported)"@,
            *self == PgmError::Truncated ==> s@ == "PGM pixel data truncated"@,
    {
        match self {
            PgmError::BadMagic => "not a P5 PGM",
            PgmError::BadHeader => "malformed PGM header",
            PgmError::Not8Bit => "PGM maxval > 255 (16-bit not supported)",
            PgmError::Truncated => "PGM pixel data truncated",
        }
    }
}

/// ASCII whitespace: space, tab, line feed, form feed, carriage return.
pub open spec fn is_ws(c: u8) -> bool {
    c == 32 || c == 9 || c == 10 || c == 12 || c == 13
}

/// An ASCII decimal digit.
pub open spec fn is_digit(c: u8) -> bool {
    48 <= c <= 57
}

/// Position after the whitespace and `#`-to-end-of-line comments that
/// start at `p`.
pub open spec fn skip_filler(b: Seq<u8>, p: int) -> int
    decreases b.len() - p, 0int,
{
    if 0 <= p < b.len() && is_ws(b[p]) {
        skip_filler(b, p + 1)
    } else if 0 <= p < b.len() && b[p] == 35 {
        skip_comment(b, p + 1)
    } else {
        p
    }
}

/// Position after the rest of a comment (up to, not past, its line feed)
/// and the filler that follows it.
pub open spec fn skip_comment(b: Seq<u8>, p: int) -> int
    decreases b.len() - p, 1int,
{
    if 0 <= p < b.len() && b[p] != 10 {
        skip_comment(b, p + 1)
    } else {
        skip_filler(b, p)
    }
}

/// End of the run of digits starting at `p`.
pub open spec fn digits_end(b: Seq<u8>, p: int) -> int
    decreases b.len() - p,
{
    if 0 <= p < b.len() && is_digit(b[p]) {
        digits_end(b, p + 1)
    } else {
        p
    }
}

/// Decimal value of the digits `b[a..e]`.
pub open spec fn decimal(b: Seq<u8>, a: int, e: int) -> int
    decreases e - a,
{
    if e <= a {
        0
    } else {
        decimal(b, a, e - 1) * 10 + (b[e - 1] - 48)
    }
}

/// Reading one header number at `p`: after filler, at least one digit whose
/// value fits in `usize`; gives the value and the position after it.
pub open spec fn field_spec(b: Seq<u8>, p: int) -> Option<(int, int)> {
    let s = skip_filler(b, p);
    let e = digits_end(b, s);
    if e == s || decimal(b, s, e) > usize::MAX {
        None
    } else {
        Some((decimal(b, s, e), e))
    }
}

/// What parsing the PGM file `b` yields: the grey raster with its width and
/// height, or the first error met.
pub open spec fn pgm_spec(b: Seq<u8>) -> Result<(Seq<u8>, int, int), PgmError> {
    if b.len() < 2 || b[0] != 80 || b[1] != 53 {
        Err(PgmError::BadMagic)
    } else {
        match field_spec(b, 2) {
            None => Err(PgmError::BadHeader),
            Some((width, e1)) => match field_spec(b, e1) {
                None => Err(PgmError::BadHeader),
                Some((height, e2)) => match field_spec(b, e2) {
                    None => Err(PgmError::BadHeader),
                    Some((maxval, e3)) => if maxval > 255 {
                        Err(PgmError::Not8Bit)
                    } else if e3 >= b.len() || !is_ws(b[e3]) {
                        Err(PgmError::BadHeader)
                    } else if width * height > usize::MAX {
                        Err(PgmError::BadHeader)
                    } else if e3 + 1 + width * height > b.len() {
                        Err(PgmError::Truncated)
                    } else {
                        Ok((b.subrange(e3 + 1, e3 + 1 + width * height), width, height))
                    },
                },
            },
        }
    }
}

proof fn lemma_skip_filler_ge(b: Seq<u8>, p: int)
    requires
        0 <= p <= b.len(),
    ensures
        p <= skip_filler(b, p) <= b.len(),
    decreases b.len() - p, 0int,
{
    if 0 <= p < b.len() && is_ws(b[p]) {
        lemma_skip_filler_ge(b, p + 1);
    } else if 0 <= p < b.len() && b[p] == 35 {
        lemma_skip_comment_ge(b, p + 1);
    }
}

proof fn lemma_skip_comment_ge(b: Seq<u8>, p: int)
    requires
        0 <= p <= b.len(),
    ensures
        p <= skip_comment(b, p) <= b.len(),
    decreases b.len() - p, 1int,
{
    if 0 <= p < b.len() && b[p] != 10 {
        lemma_skip_comment_ge(b, p + 1);
    } else {
        lemma_skip_filler_ge(b, p);
    }
}

proof fn lemma_decimal_nonneg(b: Seq<u8>, a: int, e: int)
    requires
        0 <= a,
        e <= b.len(),
        forall|i: int| a <= i < e ==> is_digit(b[i]),
    ensures
        0 <= decimal(b, a, e),
    decreases e - a,
{
    if e > a {
        lemma_decimal_nonneg(b, a, e - 1);
    }
}

/// Once a digit prefix exceeds a bound, every longer prefix does too.
proof fn lemma_decimal_grows(b: Seq<u8>, a: int, m: int, e: int)
    requires
        0 <= a <= m <= e <= b.len(),
        forall|i: int| a <= i < e ==> is_digit(b[i]),
    ensures
        decimal(b, a, m) <= decimal(b, a, e),
    decreases e - m,
{
    if m < e {
        lemma_decimal_grows(b, a, m, e - 1);
        lemma_decimal_nonneg(b, a, e - 1);
    }
}

/// Skip whitespace and comments from `pos` (the header filler).
fn skip_header_filler(bytes: &[u8], start: usize) -> (r: usize)
    requires
        start <= bytes@.len(),
    ensures
        r == skip_filler(bytes@, start as int),
{
    let ghost target = skip_filler(bytes@, start as int);
    let len = bytes.len();
    let mut pos = start;
    loop
        invariant
            target == skip_filler(bytes@, start as int),
            len == bytes@.len(),
            pos <= len,
            skip_filler(bytes@, pos as int) == target,
        decreases len - pos,
    {
        let ghost pos0 = pos;
        while pos < len && (bytes[pos] == 32 || bytes[pos] == 9 || bytes[pos] == 10 || bytes[pos] == 12 || bytes[pos] == 13)
            invariant
                len == bytes@.len(),
                pos0 <= pos <= len,
                skip_filler(bytes@, pos as int) == target,
            decreases len - pos,
        {
            pos += 1;
        }
        if pos < len && bytes[pos] == 35 {
            let p0 = pos;
            while pos < len && bytes[pos] != 10
                invariant
                    len == bytes@.len(),
                    p0 <= pos <= len,
                    p0 < len,
                    bytes@[p0 as int] == 35,
                    skip_filler(bytes@, p0 as int) == target,
                    p0 < pos ==> skip_comment(bytes@, pos as int) == target,
                decreases len - pos,
            {
                pos += 1;
            }
        } else {
            proof {
                assert(!(0 <= pos < bytes@.len() && is_ws(bytes@[pos as int])));
                assert(skip_filler(bytes@, pos as int) == pos);
            }
            return pos;
        }
    }
}

/// Read one header number at `pos`: skip filler, then take the digits
/// (`str::parse::<usize>` on them: their decimal value, refused when it does
/// not fit). `None` when there is no digit or the value overflows.
fn read_field(bytes: &[u8], pos: usize) -> (r: Option<(usize, usize)>)
    requires
        pos <= bytes@.len(),
    ensures
        match field_spec(bytes@, pos as int) {
            None => r is None,
            Some((v, e)) => r matches Some((rv, re)) && rv == v && re == e,
        },
        r matches Some((_, e)) ==> e <= bytes@.len(),
{
    let len = bytes.len();
    let start = skip_header_filler(bytes, pos);
    proof {
        lemma_skip_filler_ge(bytes@, pos as int);
    }
    let mut end = start;
    while end < len && 48 <= bytes[end] && bytes[end] <= 57
        invariant
            len == bytes@.len(),
            start <= end <= len,
            start == skip_filler(bytes@, pos as int),
            digits_end(bytes@, end as int) == digits_end(bytes@, start as int),
            forall|i: int| start <= i < end ==> is_digit(bytes@[i]),
        decreases len - end,
    {
        end += 1;
    }
    if end == start {
        return None;
    }
    let mut value: usize = 0;
    let mut i = start;
    while i < end
        invariant
            len == bytes@.len(),
            start <= i <= end <= len,
            start < end,
            start == skip_filler(bytes@, pos as int),
            end == digits_end(bytes@, start as int),
            forall|k: int| start <= k < end ==> is_digit(bytes@[k]),
            value == decimal(bytes@, start as int, i as int),
        decreases end - i,
    {
        let digit = (bytes[i] - 48) as usize;
        proof {
            assert(decimal(bytes@, start as int, i + 1) == value * 10 + digit);
        }
        match value.checked_mul(10) {
            None => {
                proof {
                    lemma_decimal_grows(bytes@, start as int, i + 1, end as int);
                }
                return None;
            },
            Some(t) => match t.checked_add(digit) {
                None => {
                    proof {
                        lemma_decimal_grows(bytes@, start as int, i + 1, end as int);
                    }
                    return None;
                },
                Some(v) => {
                    value = v;
                },
            },
        }
        i += 1;
    }
    Some((value, end))
}

/// Parse a P5 (binary 8-bit grey) PGM: the `P5` magic, three
/// whitespace-separated decimal numbers `width height maxval` (with
/// `#`-to-end-of-line comments allowed before each), exactly one whitespace
/// byte, then `width × height` raw grey bytes, row-major. Returns
/// `(grey, width, height)`; errors on a bad magic, a missing or oversized
/// number or a missing separator (`BadHeader`), `maxval > 255` (`Not8Bit`),
/// or too few raster bytes (`Truncated`).
pub fn parse_pgm(bytes: &[u8]) -> (r: Result<(Vec<u8>, usize, usize), PgmError>)
    ensures
        match pgm_spec(bytes@) {
            Ok((g, w, h)) => r matches Ok((grey, rw, rh)) && grey@ == g && rw == w && rh == h,
            Err(e) => r == Err::<(Vec<u8>, usize, usize), PgmError>(e),
        },
{
    let len = bytes.len();
    if len < 2 || bytes[0] != 80 || bytes[1] != 53 {
        return Err(PgmError::BadMagic);
    }
    let (width, p1) = match read_field(bytes, 2) {
        None => return Err(PgmError::BadHeader),
        Some(f) => f,
    };
    proof {
        lemma_skip_filler_ge(bytes@, 2);
    }
    let (height, p2) = match read_field(bytes, p1) {
        None => return Err(PgmError::BadHeader),
        Some(f) => f,
    };
    let (maxval, p3) = match read_field(bytes, p2) {
        None => return Err(PgmError::BadHeader),
        Some(f) => f,
    };
    if maxval > 255 {
        return Err(PgmError::Not8Bit);
    }
    if p3 >= len || !(bytes[p3] == 32 || bytes[p3] == 9 || bytes[p3] == 10 || bytes[p3] == 12 || bytes[p3] == 13) {
        return Err(PgmError::BadHeader);
    }
    let pos = p3 + 1;
    let count = match width.checked_mul(height) {
        None => return Err(PgmError::BadHeader),
        Some(c) => c,
    };
    let end = match pos.checked_add(count) {
        None => return Err(PgmError::Truncated),
        Some(e) => e,
    };
    if end > len {
        return Err(PgmError::Truncated);
    }
    let mut data: Vec<u8> = Vec::with_capacity(count);
    let mut k = pos;
    while k < end
        invariant
            pos <= k <= end <= len,
            len == bytes@.len(),
            data@ == bytes@.subrange(pos as int, k as int),
        decreases end - k,
    {
        data.push(bytes[k]);
        k += 1;
    }
    Ok((data, width, height))
}


/// The bilinear interpolation of a `ws × hs` grey image at the sub-pixel
/// position `(xpm / 16, ypm / 16)` in sixteenths: the four pixels at
/// `(xp, yp)`, `(xp + 1, yp)`, `(xp, yp + 1)` and `(xp + 1, yp + 1)`, each
/// neighbour clamped to the image's last column and row, weighted by the
/// fractional parts `xpm % 16` and `ypm % 16`, rounded to the nearest
/// integer.
pub open spec fn li_value(src: Seq<u8>, ws: int, xpm: int, ypm: int, hs: int) -> int {
    let xp = xpm / 16;
    let yp = ypm / 16;
    let xf = xpm % 16;
    let yf = ypm % 16;
    let x1 = if xp + 1 < ws { xp + 1 } else { xp };
    let y1 = if yp + 1 < hs { yp + 1 } else { yp };
    let v00 = src[idx(xp, yp, ws)] as int;
    let v10 = src[idx(x1, yp, ws)] as int;
    let v01 = src[idx(xp, y1, ws)] as int;
    let v11 = src[idx(x1, y1, ws)] as int;
    ((16 - xf) * (16 - yf) * v00 + xf * (16 - yf) * v10 + (16 - xf) * yf * v01 + xf * yf * v11 + 128) / 256
}

/// One output pixel of linear-interpolation grey scaling: the value of
/// [`li_value`] at the sub-pixel position `(xpm, ypm)`, given in sixteenths
/// of a pixel.
pub fn scale_li_pixel(src: &[u8], ws: usize, hs: usize, xpm: i32, ypm: i32) -> (v: u8)
    requires
        src@.len() == ws * hs,
        0 <= xpm,
        0 <= ypm,
        xpm / 16 < ws,
        ypm / 16 < hs,
    ensures
        v == li_value(src@, ws as int, xpm as int, ypm as int, hs as int),
{
    let xp = xpm >> 4;
    let yp = ypm >> 4;
    let xf = xpm & 0x0f;
    let yf = ypm & 0x0f;
    proof {
        assert(xp == xpm / 16 && xf == xpm % 16) by (bit_vector)
            requires
                0 <= xpm,
                xp == xpm >> 4,
                xf == xpm & 0x0f,
        ;
        assert(yp == ypm / 16 && yf == ypm % 16) by (bit_vector)
            requires
                0 <= ypm,
                yp == ypm >> 4,
                yf == ypm & 0x0f,
        ;
    }
    let n = src.len();
    let xpu = xp as usize;
    let ypu = yp as usize;
    let x1 = if xpu + 1 < ws { xpu + 1 } else { xpu };
    let y1 = if ypu + 1 < hs { ypu + 1 } else { ypu };
    proof {
        lemma_idx_bounds(xpu as int, ypu as int, ws as int, hs as int);
        lemma_idx_bounds(x1 as int, ypu as int, ws as int, hs as int);
        lemma_idx_bounds(xpu as int, y1 as int, ws as int, hs as int);
        lemma_idx_bounds(x1 as int, y1 as int, ws as int, hs as int);
        assert(ws * hs == n);
    }
    let v00 = src[ypu * ws + xpu] as u32;
    let v10 = src[ypu * ws + x1] as u32;
    let v01 = src[y1 * ws + xpu] as u32;
    let v11 = src[y1 * ws + x1] as u32;
    let xfu = xf as u32;
    let yfu = yf as u32;
    proof {
        assert((16 - xfu) * (16 - yfu) * v00 + xfu * (16 - yfu) * v10 + (16 - xfu) * yfu * v01 + xfu * yfu * v11 <= 256 * 255)
            by (nonlinear_arith)
            requires
                0 <= xfu < 16,
                0 <= yfu < 16,
                v00 <= 255,
                v10 <= 255,
                v01 <= 255,
                v11 <= 255,
        ;
        assert((16 - xfu) * (16 - yfu) * v00 >= 0 && xfu * (16 - yfu) * v10 >= 0 && (16 - xfu) * yfu * v01 >= 0 && xfu * yfu * v11 >= 0)
            by (nonlinear_arith)
            requires
                0 <= xfu < 16,
                0 <= yfu < 16,
        ;
    }
    proof {
        assert((16 - xfu) * (16 - yfu) <= 256 && xfu * (16 - yfu) <= 256 && (16 - xfu) * yfu <= 256 && xfu * yfu <= 256)
            by (nonlinear_arith)
            requires
                0 <= xfu < 16,
                0 <= yfu < 16,
        ;
        assert(forall|k: u32, v: u32| k <= 256 && v <= 255 ==> #[trigger] (k * v) <= 256 * 255) by (nonlinear_arith);
    }
    let a = (16 - xfu) * (16 - yfu) * v00;
    let b = xfu * (16 - yfu) * v10;
    let c = (16 - xfu) * yfu * v01;
    let d = xfu * yfu * v11;
    ((a + b + c + d + 128) / 256) as u8
}

} // verus!
