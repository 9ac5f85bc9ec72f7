//! Text handling of gravity-field coefficient files (EGM2008 plain text and
//! ICGEM `.gfc`).
//!
//! Accepted coefficient line formats:
//!   `degree order C S`
//!   `gfc degree order C S [sigma_C] [sigma_S]`
//!
//! Lines before `end_of_head` are header lines: they are scanned for the
//! `earth_gravity_constant` and `radius` values and otherwise skipped,
//! unless they look like coefficient lines (files without a header). The
//! coefficient values are floating-point text, handed back as text for the
//! caller to convert.
use vstd::prelude::*;
use vstd::string::{StrSliceExecFns, StringExecFns};

use vstd::utf8::{decode_utf8, valid_utf8};

use crate::decimal::{is_float_text, parse_rounded_u64};
use crate::error::ApogeeError;
use crate::text::{
    IntError, eq_ignore_ascii_case, range_eq_ignore_case, chars_of, int_error_message, is_digit, is_whitespace, is_ws, parse_int,
    parse_integer, push_char, push_str, range_starts_with, string_of, trim, trim_range,
    trim_start, views, words, words_of,
};

verus! {

// ---------------------------------------------------------------------------
// Specification
// ---------------------------------------------------------------------------

/// `s` begins with `p`.
pub open spec fn starts_with(s: Seq<char>, p: Seq<char>) -> bool {
    s.len() >= p.len() && s.take(p.len() as int) == p
}

/// Where the first whitespace character of `s` stands, or `s.len()`.
pub open spec fn first_ws(s: Seq<char>) -> nat
    decreases s.len(),
{
    if s.len() == 0 || is_ws(s[0]) {
        0
    } else {
        1 + first_ws(s.drop_first())
    }
}

/// The value of a `key value` header line: after the trimmed line's
/// leading `key`, the text up to the first whitespace past any leading
/// whitespace; `None` when the trimmed line does not start with `key`.
pub open spec fn header_value(line: Seq<char>, key: Seq<char>) -> Option<Seq<char>> {
    let t = trim(line);
    if starts_with(t, key) {
        let v = trim_start(t.skip(key.len() as int));
        Some(v.take(first_ws(v) as int))
    } else {
        None
    }
}

/// The text of a float written with a Fortran exponent marker: each `d` or
/// `D` that follows an ASCII digit becomes `e`.
pub open spec fn fortran_text(s: Seq<char>) -> Seq<char> {
    Seq::new(
        s.len(),
        |i: int|
            if (s[i] == 'd' || s[i] == 'D') && i > 0 && is_digit(s[i - 1]) {
                'e'
            } else {
                s[i]
            },
    )
}

/// The largest `usize`.
pub open spec fn usize_max() -> int {
    usize::MAX as int
}

/// The fields of a line are in the ICGEM form `gfc degree order C S ...`.
pub open spec fn is_gfc(ws: Seq<Seq<char>>) -> bool {
    ws.len() >= 5 && eq_ignore_ascii_case(ws[0], "gfc"@)
}

/// A header line that looks like a coefficient line (a file without a
/// header): its degree field parses as a `usize`.
pub open spec fn looks_like_coefficient(ws: Seq<Seq<char>>) -> bool {
    if is_gfc(ws) {
        parse_int(ws[1], 0, usize_max()) is Ok
    } else if ws.len() >= 4 {
        parse_int(ws[0], 0, usize_max()) is Ok
    } else {
        false
    }
}

/// A parsed coefficient line: degree, order, the C and S value texts, and
/// whether the term lies within the requested degree and order.
pub type CoefficientSpec = (int, int, Seq<char>, Seq<char>, bool);

/// The coefficient a data line gives, `None` for a line with fewer than four
/// fields, or the message of its invalid degree or order.
pub open spec fn coefficient_line(ws: Seq<Seq<char>>, degree: int, order: int) -> Result<
    Option<CoefficientSpec>,
    Seq<char>,
> {
    if ws.len() < 4 {
        Ok(None)
    } else {
        let b: int = if is_gfc(ws) { 1 } else { 0 };
        let n = parse_int(ws[b], 0, usize_max());
        let m = parse_int(ws[b + 1], 0, usize_max());
        if n is Err {
            Err("invalid degree: "@ + int_error_message(n->Err_0))
        } else if m is Err {
            Err("invalid order: "@ + int_error_message(m->Err_0))
        } else {
            let nv = n->Ok_0;
            let mv = m->Ok_0;
            let keep = !(nv == 0 || nv > degree || mv > (if nv < order { nv } else { order }));
            Ok(Some((nv, mv, ws[b + 2], ws[b + 3], keep)))
        }
    }
}

/// What one line of a coefficient file does, given whether the header has
/// been passed: the new header state, the header values it offers
/// (gravitational constant, radius), and the coefficient it carries; or
/// the message of the error that stops the load.
pub open spec fn gravity_line(line: Seq<char>, past_header: bool, degree: int, order: int) -> Result<
    (bool, Option<Seq<char>>, Option<Seq<char>>, Option<CoefficientSpec>),
    Seq<char>,
> {
    let t = trim(line);
    let ws = words(t);
    if t.len() == 0 || t[0] == '#' {
        Ok((past_header, None, None, None))
    } else if past_header {
        match coefficient_line(ws, degree, order) {
            Ok(c) => Ok((true, None, None, c)),
            Err(m) => Err(m),
        }
    } else if starts_with(t, "end_of_head"@) {
        Ok((true, None, None, None))
    } else {
        let gm = header_value(t, "earth_gravity_constant"@);
        let radius = header_value(t, "radius"@);
        if !looks_like_coefficient(ws) {
            Ok((false, gm, radius, None))
        } else {
            match coefficient_line(ws, degree, order) {
                Ok(c) => Ok((false, gm, radius, c)),
                Err(m) => Err(m),
            }
        }
    }
}

// ---------------------------------------------------------------------------
// Lemmas
// ---------------------------------------------------------------------------

proof fn lemma_first_ws_unique(s: Seq<char>, p: int)
    requires
        0 <= p <= s.len(),
        p < s.len() ==> is_ws(s[p]),
        forall|i: int| 0 <= i < p ==> !is_ws(#[trigger] s[i]),
    ensures
        first_ws(s) == p,
    decreases s.len(),
{
    if s.len() > 0 && !is_ws(s[0]) {
        assert forall|i: int| 0 <= i < p - 1 implies !is_ws(#[trigger] s.drop_first()[i]) by {
            assert(s.drop_first()[i] == s[i + 1]);
        }
        lemma_first_ws_unique(s.drop_first(), p - 1);
    }
}

// ---------------------------------------------------------------------------
// Implementation
// ---------------------------------------------------------------------------

/// A coefficient line of a gravity-field file.
#[derive(Debug)]
pub struct GravityCoefficient {
    /// Degree n.
    pub degree: usize,
    /// Order m.
    pub order: usize,
    /// Text of the C coefficient.
    pub c: String,
    /// Text of the S coefficient.
    pub s: String,
    /// Whether the term lies within the requested degree and order
    /// (`1 <= n <= degree`, `m <= min(n, order)`).
    pub keep: bool,
}

/// What one line of a gravity-field file does.
#[derive(Debug)]
pub struct GravityLine {
    /// Whether the header has been passed after this line.
    pub past_header: bool,
    /// Text of the `earth_gravity_constant` header value, if the line has one.
    pub gm: Option<String>,
    /// Text of the `radius` header value, if the line has one.
    pub radius: Option<String>,
    /// The coefficient the line carries, if any.
    pub coefficient: Option<GravityCoefficient>,
}

/// The view of an optional string.
pub open spec fn opt_text(o: Option<String>) -> Option<Seq<char>> {
    match o {
        Some(s) => Some(s@),
        None => None,
    }
}

/// The view of an optional coefficient.
pub open spec fn opt_coefficient(o: Option<GravityCoefficient>) -> Option<CoefficientSpec> {
    match o {
        Some(c) => Some((c.degree as int, c.order as int, c.c@, c.s@, c.keep)),
        None => None,
    }
}

/// Index of the first non-whitespace character of `v[lo..hi]` (or `hi`).
fn skip_ws(v: &Vec<char>, lo: usize, hi: usize) -> (r: usize)
    requires
        lo <= hi <= v.len(),
    ensures
        lo <= r <= hi,
        v@.subrange(r as int, hi as int) == trim_start(v@.subrange(lo as int, hi as int)),
{
    let mut a = lo;
    while a < hi && is_whitespace(v[a])
        invariant
            lo <= a <= hi <= v.len(),
            trim_start(v@.subrange(lo as int, hi as int)) == trim_start(
                v@.subrange(a as int, hi as int),
            ),
        decreases hi - a,
    {
        assert(v@.subrange(a as int, hi as int).drop_first() == v@.subrange(a + 1, hi as int));
        a += 1;
    }
    a
}

/// Index of the first whitespace character of `v[lo..hi]` (or `hi`).
fn find_ws(v: &Vec<char>, lo: usize, hi: usize) -> (r: usize)
    requires
        lo <= hi <= v.len(),
    ensures
        lo <= r <= hi,
        r - lo == first_ws(v@.subrange(lo as int, hi as int)),
{
    let mut e = lo;
    while e < hi && !is_whitespace(v[e])
        invariant
            lo <= e <= hi <= v.len(),
            forall|i: int| lo <= i < e ==> !is_ws(#[trigger] v@[i]),
        decreases hi - e,
    {
        e += 1;
    }
    proof {
        let s = v@.subrange(lo as int, hi as int);
        assert forall|i: int| 0 <= i < e - lo implies !is_ws(#[trigger] s[i]) by {
            assert(s[i] == v@[lo + i]);
        }
        lemma_first_ws_unique(s, e - lo);
    }
    e
}

/// Extract the value portion of a `key value` header line from an ICGEM
/// `.gfc` file: after the trimmed line's leading `key` and any whitespace,
/// the text up to the next whitespace. `None` if the trimmed line doesn't
/// start with `key`.
pub fn parse_header_value<'a>(line: &'a str, key: &str) -> (r: Option<&'a str>)
    ensures
        opt_str(r) == header_value(line@, key@),
{
    let v = chars_of(line);
    let (a, b) = trim_range(&v, 0, v.len());
    assert(v@.subrange(0, v@.len() as int) == v@);
    if !range_starts_with(&v, a, b, key) {
        return None;
    }
    let k = chars_of(key);
    let start = a + k.len();
    let ghost t = v@.subrange(a as int, b as int);
    assert(t.skip(key@.len() as int) == v@.subrange(start as int, b as int));
    let vs = skip_ws(&v, start, b);
    let ve = find_ws(&v, vs, b);
    assert(v@.subrange(vs as int, b as int).take(ve - vs) == v@.subrange(vs as int, ve as int));
    Some(line.substring_char(vs, ve))
}

/// The view of an optional string slice.
pub open spec fn opt_str(o: Option<&str>) -> Option<Seq<char>> {
    match o {
        Some(s) => Some(s@),
        None => None,
    }
}

/// Rewrites a Fortran double-precision literal (`1.0d0`, `1.0D-03`) into
/// the `e` notation that `str::parse::<f64>` reads: each `d` or `D` that
/// follows an ASCII digit becomes `e`; everything else is kept.
pub fn fortran_float_text(s: &str) -> (r: String)
    ensures
        r@ == fortran_text(s@),
{
    let v = chars_of(s);
    let mut r = String::new();
    let mut i: usize = 0;
    while i < v.len()
        invariant
            i <= v@.len(),
            v@ == s@,
            r@ == fortran_text(s@).take(i as int),
        decreases v@.len() - i,
    {
        let c = v[i];
        let out = if (c == 'd' || c == 'D') && i > 0 && '0' <= v[i - 1] && v[i - 1] <= '9' {
            'e'
        } else {
            c
        };
        push_char(&mut r, out);
        assert(fortran_text(s@).take(i + 1) == fortran_text(s@).take(i as int).push(out));
        i += 1;
    }
    assert(fortran_text(s@).take(v@.len() as int) == fortran_text(s@));
    r
}

/// Whether a word is `gfc` up to ASCII case.
fn is_gfc_word(w: &Vec<char>) -> (b: bool)
    ensures
        b == eq_ignore_ascii_case(w@, "gfc"@),
{
    let b = range_eq_ignore_case(w, 0, w.len(), "gfc");
    assert(w@.subrange(0, w@.len() as int) == w@);
    b
}

/// Parses the degree and order of a data line with at least four fields.
fn parse_coefficient(ws: &Vec<Vec<char>>, degree: usize, order: usize) -> (r: Result<
    Option<GravityCoefficient>,
    ApogeeError,
>)
    ensures
        match coefficient_line(views(ws@), degree as int, order as int) {
            Ok(c) => r matches Ok(x) && opt_coefficient(x) == c,
            Err(m) => r matches Err(ApogeeError::Gravity(msg)) && msg@ == m,
        },
{
    let ghost wv = views(ws@);
    if ws.len() < 4 {
        return Ok(None);
    }
    assert(forall|i: int| 0 <= i < ws@.len() ==> #[trigger] wv[i] == ws@[i]@);
    let gfc = ws.len() >= 5 && is_gfc_word(&ws[0]);
    let b: usize = if gfc { 1 } else { 0 };
    let umax: i128 = usize::MAX as i128;
    let n = parse_integer(&ws[b], 0, umax);
    let m = parse_integer(&ws[b + 1], 0, umax);
    let n = match n {
        Ok(x) => x as usize,
        Err(e) => {
            let mut msg = String::from_str("invalid degree: ");
            push_str(&mut msg, int_error_text(e).as_str());
            return Err(ApogeeError::Gravity(msg));
        },
    };
    let m = match m {
        Ok(x) => x as usize,
        Err(e) => {
            let mut msg = String::from_str("invalid order: ");
            push_str(&mut msg, int_error_text(e).as_str());
            return Err(ApogeeError::Gravity(msg));
        },
    };
    let c = ws[b + 2].clone();
    let s = ws[b + 3].clone();
    let keep = !(n == 0 || n > degree || m > (if n < order { n } else { order }));
    let cs = string_of(&c, 0, c.len());
    let ss = string_of(&s, 0, s.len());
    assert(c@.subrange(0, c@.len() as int) == c@);
    assert(s@.subrange(0, s@.len() as int) == s@);
    Ok(Some(GravityCoefficient { degree: n, order: m, c: cs, s: ss, keep }))
}

/// The message that `ParseIntError` displays for a kind.
fn int_error_text(e: IntError) -> (s: String)
    ensures
        s@ == int_error_message(e),
{
    match e {
        IntError::Empty => String::from_str("cannot parse integer from empty string"),
        IntError::InvalidDigit => String::from_str("invalid digit found in string"),
        IntError::PosOverflow => String::from_str("number too large to fit in target type"),
        IntError::NegOverflow => String::from_str("number too small to fit in target type"),
    }
}

/// What one line of a gravity-field file does, given whether the header
/// has been passed and the requested maximum degree and order: blank and
/// `#` lines do nothing; before `end_of_head`, lines offer the
/// `earth_gravity_constant` and `radius` header values and are otherwise
/// skipped unless they look like coefficient lines; coefficient lines give
/// their degree, order and C/S texts. Fails with a `Gravity` error when a
/// coefficient line's degree or order is not an unsigned integer.
pub fn gravity_line_step(line: &str, past_header: bool, degree: usize, order: usize) -> (r: Result<
    GravityLine,
    ApogeeError,
>)
    ensures
        match gravity_line(line@, past_header, degree as int, order as int) {
            Ok((ph, gm, radius, c)) => r matches Ok(g) && g.past_header == ph && opt_text(g.gm)
                == gm && opt_text(g.radius) == radius && opt_coefficient(g.coefficient) == c,
            Err(m) => r matches Err(ApogeeError::Gravity(msg)) && msg@ == m,
        },
{
    let v = chars_of(line);
    let (a, b) = trim_range(&v, 0, v.len());
    assert(v@.subrange(0, v@.len() as int) == v@);
    let ghost t = trim(line@);
    if a == b || v[a] == '#' {
        return Ok(GravityLine { past_header, gm: None, radius: None, coefficient: None });
    }
    let ws = words_of(&v, a, b);
    if past_header {
        return match parse_coefficient(&ws, degree, order) {
            Ok(c) => Ok(GravityLine { past_header: true, gm: None, radius: None, coefficient: c }),
            Err(e) => Err(e),
        };
    }
    if range_starts_with(&v, a, b, "end_of_head") {
        return Ok(GravityLine { past_header: true, gm: None, radius: None, coefficient: None });
    }
    let trimmed = line.substring_char(a, b);
    let gm = match parse_header_value(trimmed, "earth_gravity_constant") {
        Some(x) => Some(String::from_str(x)),
        None => None,
    };
    let radius = match parse_header_value(trimmed, "radius") {
        Some(x) => Some(String::from_str(x)),
        None => None,
    };
    let ghost wv = views(ws@);
    assert(forall|i: int| 0 <= i < ws@.len() ==> #[trigger] wv[i] == ws@[i]@);
    let umax: i128 = usize::MAX as i128;
    let is_coeff_line = if ws.len() >= 5 && is_gfc_word(&ws[0]) {
        parse_integer(&ws[1], 0, umax).is_ok()
    } else if ws.len() >= 4 {
        parse_integer(&ws[0], 0, umax).is_ok()
    } else {
        false
    };
    if !is_coeff_line {
        return Ok(GravityLine { past_header: false, gm, radius, coefficient: None });
    }
    match parse_coefficient(&ws, degree, order) {
        Ok(c) => Ok(GravityLine { past_header: false, gm, radius, coefficient: c }),
        Err(e) => Err(e),
    }
}


// ---------------------------------------------------------------------------
// Whole files
// ---------------------------------------------------------------------------

/// What flate2's single-member gzip decoder gives for `compressed`: the
/// bytes it decodes before it stops, and the text of its error if it stops
/// on one.
pub uninterp spec fn gunzip(compressed: Seq<u8>) -> (Seq<u8>, Option<Seq<char>>);

/// Decompresses gzip data with `flate2::read::GzDecoder`, reading to the
/// end (`Read::read_to_end`): the bytes decoded before it stopped and the
/// text of the error it stopped on, if any. The result is named, not
/// stated: it depends on the compressed bytes alone.
#[verifier::external_body]
pub fn gunzip_bytes(compressed: &[u8]) -> (r: (Vec<u8>, Option<String>))
    ensures
        (r.0@, opt_text(r.1)) == gunzip(compressed@),
{
    let mut out = Vec::new();
    let e = std::io::Read::read_to_end(&mut flate2::read::GzDecoder::new(compressed), &mut out);
    match e {
        Ok(_) => (out, None),
        Err(e) => (out, Some(e.to_string())),
    }
}

/// `String::from_utf8`: the text of `bytes` when they are valid UTF-8.
#[verifier::external_body]
fn utf8_text(bytes: &[u8]) -> (r: Option<String>)
    ensures
        match r {
            Some(s) => valid_utf8(bytes@) && s@ == decode_utf8(bytes@),
            None => !valid_utf8(bytes@),
        },
{
    match String::from_utf8(bytes.to_vec()) {
        Ok(s) => Some(s),
        Err(_) => None,
    }
}

/// Where the first line feed at or after `i` stands in `b`, or `b.len()`.
pub open spec fn newline_from(b: Seq<u8>, i: int) -> int
    decreases b.len() - i,
{
    if i >= b.len() {
        b.len() as int
    } else if b[i] == 10 {
        i
    } else {
        newline_from(b, i + 1)
    }
}

/// The first line feed at or after `i` lies between `i` and the end.
pub proof fn lemma_newline_from(b: Seq<u8>, i: int)
    requires
        0 <= i,
    ensures
        i <= newline_from(b, i) <= b.len() || (i > b.len() && newline_from(b, i) == b.len()),
        newline_from(b, i) < b.len() ==> b[newline_from(b, i)] == 10,
    decreases b.len() - i,
{
    if i < b.len() && b[i] != 10 {
        lemma_newline_from(b, i + 1);
    }
}

/// The lines that `BufRead::lines` reads from `b[i..]`, each with its line
/// feed: up to and including each line feed, then what follows the last
/// one when it is not empty, unless `complete_only` (reading stopped on an
/// error, which drops an unfinished line).
pub open spec fn raw_lines_from(b: Seq<u8>, i: int, complete_only: bool) -> Seq<Seq<u8>>
    decreases b.len() - i,
{
    if i < 0 || i >= b.len() {
        Seq::empty()
    } else {
        let k = newline_from(b, i);
        proof {
            lemma_newline_from(b, i);
        }
        if k < b.len() {
            seq![b.subrange(i, k + 1)] + raw_lines_from(b, k + 1, complete_only)
        } else if complete_only {
            Seq::empty()
        } else {
            seq![b.subrange(i, b.len() as int)]
        }
    }
}

/// A line's text without its line feed or carriage-return line feed.
pub open spec fn strip_line_end(t: Seq<char>) -> Seq<char> {
    if t.len() > 0 && t.last() == '\n' {
        let u = t.drop_last();
        if u.len() > 0 && u.last() == '\r' {
            u.drop_last()
        } else {
            u
        }
    } else {
        t
    }
}

/// A value text reads as a float once Fortran exponent markers are
/// rewritten.
pub open spec fn float_field(t: Seq<char>) -> bool {
    is_float_text(fortran_text(t))
}

/// The text of the `ParseFloatError` for a text that is not a float.
pub open spec fn float_error_message(t: Seq<char>) -> Seq<char> {
    if t.len() == 0 {
        "cannot parse float from empty string"@
    } else {
        "invalid float literal"@
    }
}

/// The state of a file read so far: whether its header has been passed,
/// the last usable `earth_gravity_constant` and `radius` header values, and
/// the kept coefficients in file order.
pub type GravityFileSpec = (bool, Option<Seq<char>>, Option<Seq<char>>, Seq<CoefficientSpec>);

/// What one line (with its line feed, as read) does to that state, or the
/// message of the error that stops the load.
pub open spec fn file_line_step(st: GravityFileSpec, raw: Seq<u8>, degree: int, order: int) -> Result<
    GravityFileSpec,
    Seq<char>,
> {
    if !valid_utf8(raw) {
        Err("failed to read EGM2008 line: stream did not contain valid UTF-8"@)
    } else {
        match gravity_line(strip_line_end(decode_utf8(raw)), st.0, degree, order) {
            Err(m) => Err(m),
            Ok((ph, gm, radius, c)) => {
                let gm2 = match gm {
                    Some(v) => if float_field(v) {
                        Some(v)
                    } else {
                        st.1
                    },
                    None => st.1,
                };
                let radius2 = match radius {
                    Some(v) => if float_field(v) {
                        Some(v)
                    } else {
                        st.2
                    },
                    None => st.2,
                };
                match c {
                    None => Ok((ph, gm2, radius2, st.3)),
                    Some(cs) => if !float_field(cs.2) {
                        Err("invalid C coefficient: "@ + float_error_message(cs.2))
                    } else if !float_field(cs.3) {
                        Err("invalid S coefficient: "@ + float_error_message(cs.3))
                    } else {
                        Ok(
                            (
                                ph,
                                gm2,
                                radius2,
                                if cs.4 {
                                    st.3.push(cs)
                                } else {
                                    st.3
                                },
                            ),
                        )
                    },
                }
            },
        }
    }
}

/// The lines applied in order, stopping at the first error.
pub open spec fn fold_file_lines(
    st: GravityFileSpec,
    lines: Seq<Seq<u8>>,
    degree: int,
    order: int,
) -> Result<GravityFileSpec, Seq<char>>
    decreases lines.len(),
{
    if lines.len() == 0 {
        Ok(st)
    } else {
        match file_line_step(st, lines[0], degree, order) {
            Err(m) => Err(m),
            Ok(st2) => fold_file_lines(st2, lines.drop_first(), degree, order),
        }
    }
}

/// The end of a read: the state reached, unless the lines stopped on an
/// error or reading stopped on one.
pub open spec fn finish_file(r: Result<GravityFileSpec, Seq<char>>, read_error: Option<Seq<char>>) -> Result<
    GravityFileSpec,
    Seq<char>,
> {
    match r {
        Err(m) => Err(m),
        Ok(st) => match read_error {
            Some(e) => Err("failed to read EGM2008 line: "@ + e),
            None => Ok(st),
        },
    }
}

/// What loading a gravity-field file gives for its decoded bytes and the
/// error that stopped reading them, if any.
pub open spec fn gravity_file(decoded: (Seq<u8>, Option<Seq<char>>), degree: int, order: int) -> Result<
    GravityFileSpec,
    Seq<char>,
> {
    finish_file(
        fold_file_lines(
            (false, None, None, Seq::empty()),
            raw_lines_from(decoded.0, 0, decoded.1 is Some),
            degree,
            order,
        ),
        decoded.1,
    )
}

/// The header values and coefficients of a gravity-field file.
#[derive(Debug)]
pub struct GravityFileFields {
    /// Text of the last `earth_gravity_constant` header value that reads as
    /// a float.
    pub gm: Option<String>,
    /// Text of the last `radius` header value that reads as a float.
    pub radius: Option<String>,
    /// The coefficient lines within the requested degree and order, in file
    /// order.
    pub coefficients: Vec<GravityCoefficient>,
}

/// The views of coefficients.
pub open spec fn coefficient_views(v: Seq<GravityCoefficient>) -> Seq<CoefficientSpec> {
    v.map_values(|c: GravityCoefficient| (c.degree as int, c.order as int, c.c@, c.s@, c.keep))
}

/// The view of the fields read so far, with the header state.
pub open spec fn fields_view(past: bool, f: GravityFileFields) -> GravityFileSpec {
    (past, opt_text(f.gm), opt_text(f.radius), coefficient_views(f.coefficients@))
}

/// Whether a value text reads as a float once Fortran exponent markers
/// are rewritten.
fn is_float_field(t: &str) -> (b: bool)
    ensures
        b == float_field(t@),
{
    let f = fortran_float_text(t);
    let v = chars_of(f.as_str());
    parse_rounded_u64(&v).is_some()
}

/// The message of a coefficient that does not read as a float.
fn float_error(prefix: &str, t: &String) -> (m: String)
    ensures
        m@ == prefix@ + float_error_message(t@),
{
    let mut m = String::from_str(prefix);
    if t.unicode_len() == 0 {
        push_str(&mut m, "cannot parse float from empty string");
    } else {
        push_str(&mut m, "invalid float literal");
    }
    m
}

/// Applies one line (with its line feed, as read) to the state of a file.
fn file_line(
    past: &mut bool,
    fields: &mut GravityFileFields,
    raw: &[u8],
    degree: usize,
    order: usize,
) -> (r: Result<(), String>)
    ensures
        match file_line_step(fields_view(*old(past), *old(fields)), raw@, degree as int, order as int) {
            Ok(st) => r is Ok && fields_view(*final(past), *final(fields)) == st,
            Err(m) => r matches Err(msg) && msg@ == m,
        },
{
    let text = match utf8_text(raw) {
        Some(t) => t,
        None => {
            return Err(String::from_str("failed to read EGM2008 line: stream did not contain valid UTF-8"));
        },
    };
    let v = chars_of(text.as_str());
    let n = v.len();
    let mut e = n;
    if n > 0 && v[n - 1] == '\n' {
        e = n - 1;
        if e > 0 && v[e - 1] == '\r' {
            e = e - 1;
        }
    }
    let line = string_of(&v, 0, e);
    proof {
        let t = decode_utf8(raw@);
        assert(v@ == t);
        if n > 0 && v@[n - 1] == '\n' {
            assert(t.drop_last() == v@.subrange(0, n - 1));
            if n - 1 > 0 && v@[n - 2] == '\r' {
                assert(t.drop_last().drop_last() == v@.subrange(0, n - 2));
            }
        } else {
            assert(v@.subrange(0, n as int) == v@);
        }
    }
    let step = match gravity_line_step(line.as_str(), *past, degree, order) {
        Ok(s) => s,
        Err(ApogeeError::Gravity(m)) => {
            return Err(m);
        },
        Err(_) => {
            proof {
                assert(false);
            }
            return Err(String::new());
        },
    };
    let ghost old_coefficients = coefficient_views(fields.coefficients@);
    let GravityLine { past_header, gm, radius, coefficient } = step;
    if let Some(c) = coefficient {
        if !is_float_field(c.c.as_str()) {
            return Err(float_error("invalid C coefficient: ", &c.c));
        }
        if !is_float_field(c.s.as_str()) {
            return Err(float_error("invalid S coefficient: ", &c.s));
        }
        if c.keep {
            let ghost cv = (c.degree as int, c.order as int, c.c@, c.s@, c.keep);
            fields.coefficients.push(c);
            assert(coefficient_views(fields.coefficients@) == old_coefficients.push(cv));
        }
    }
    if let Some(g) = gm {
        if is_float_field(g.as_str()) {
            fields.gm = Some(g);
        }
    }
    if let Some(rad) = radius {
        if is_float_field(rad.as_str()) {
            fields.radius = Some(rad);
        }
    }
    *past = past_header;
    Ok(())
}

/// Reads the header values and coefficients of an EGM2008 / ICGEM gravity
/// file from its bytes, decompressing them first when `gzipped`: lines are
/// split as `BufRead::lines` splits them, the header is scanned for the
/// `earth_gravity_constant` and `radius` values, and coefficient lines
/// within the requested degree and order are kept. Fails with a `Gravity`
/// error on the first line that is not UTF-8, has an invalid degree or
/// order, or a C or S value that is not a float, and when decompression
/// stops on an error.
pub fn egm2008_fields(file: &[u8], gzipped: bool, degree: usize, order: usize) -> (r: Result<
    GravityFileFields,
    ApogeeError,
>)
    ensures
        match gravity_file(
            if gzipped {
                gunzip(file@)
            } else {
                (file@, None::<Seq<char>>)
            },
            degree as int,
            order as int,
        ) {
            Ok(st) => r matches Ok(f) && opt_text(f.gm) == st.1 && opt_text(f.radius) == st.2
                && coefficient_views(f.coefficients@) == st.3,
            Err(m) => r matches Err(ApogeeError::Gravity(msg)) && msg@ == m,
        },
{
    let decoded = if gzipped {
        gunzip_bytes(file)
    } else {
        (Vec::new(), None)
    };
    let b: &[u8] = if gzipped {
        decoded.0.as_slice()
    } else {
        file
    };
    let ghost dec = if gzipped {
        gunzip(file@)
    } else {
        (file@, None::<Seq<char>>)
    };
    let read_error = decoded.1;
    assert(b@ == dec.0 && opt_text(read_error) == dec.1);
    let complete_only = read_error.is_some();
    let mut past = false;
    let mut fields = GravityFileFields { gm: None, radius: None, coefficients: Vec::new() };
    assert(coefficient_views(fields.coefficients@) =~= Seq::<CoefficientSpec>::empty());
    let mut pos: usize = 0;
    while pos < b.len()
        invariant
            pos <= b@.len(),
            dec == (if gzipped {
                gunzip(file@)
            } else {
                (file@, None::<Seq<char>>)
            }),
            b@ == dec.0,
            complete_only == (dec.1 is Some),
            gravity_file(dec, degree as int, order as int) == finish_file(
                fold_file_lines(fields_view(past, fields), raw_lines_from(b@, pos as int, complete_only), degree as int, order as int),
                dec.1,
            ),
        decreases b@.len() - pos,
    {
        let mut k = pos;
        while k < b.len() && b[k] != 10
            invariant
                pos <= k <= b@.len(),
                newline_from(b@, pos as int) == newline_from(b@, k as int),
            decreases b@.len() - k,
        {
            k += 1;
        }
        proof {
            lemma_newline_from(b@, pos as int);
        }
        if k == b.len() && complete_only {
            pos = b.len();
        } else {
            let end = if k < b.len() {
                k + 1
            } else {
                b.len()
            };
            let ghost lines = raw_lines_from(b@, pos as int, complete_only);
            let ghost rest = raw_lines_from(b@, end as int, complete_only);
            assert(lines[0] == b@.subrange(pos as int, end as int));
            assert(lines.drop_first() == rest);
            let ghost st_before = fields_view(past, fields);
            match file_line(&mut past, &mut fields, &b[pos..end], degree, order) {
                Ok(()) => {},
                Err(m) => {
                    assert(lines.len() > 0);
                    assert(fold_file_lines(st_before, lines, degree as int, order as int) == Err::<
                        GravityFileSpec,
                        Seq<char>,
                    >(m@));
                    assert(gravity_file(dec, degree as int, order as int) == Err::<
                        GravityFileSpec,
                        Seq<char>,
                    >(m@));
                    return Err(ApogeeError::Gravity(m));
                },
            }
            pos = end;
        }
    }
    match read_error {
        Some(e) => {
            let mut m = String::from_str("failed to read EGM2008 line: ");
            push_str(&mut m, e.as_str());
            Err(ApogeeError::Gravity(m))
        },
        None => Ok(fields),
    }
}
} // verus!
