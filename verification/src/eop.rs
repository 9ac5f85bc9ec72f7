//! Text handling of the IERS EOP C04 series.
//!
//! Data lines hold the columns Year Month Day MJD x-pole y-pole UT1-UTC LOD
//! (and more, ignored). Lines that are blank, do not start with a digit, or
//! have fewer than eight fields are header lines and are skipped. The
//! floating-point columns are handed back as text for the caller to convert.
use vstd::prelude::*;
use vstd::string::StringExecFns;

use crate::decimal::{is_float_text, parse_rounded_u64};
use crate::error::ApogeeError;
use crate::gravity::float_error_message;
use crate::leap_seconds::{input_lines, u32_max};
use crate::text::{
    IntError, chars_of, int_error_message, is_digit, parse_int, parse_integer, pieces, split_by,
    split_ranges, string_of, trim, trim_range, views, words, words_of,
};

verus! {

/// The integer columns of an EOP data line and the texts of its MJD,
/// x-pole, y-pole, UT1-UTC and LOD columns.
pub type EopLineSpec = (int, int, int, Seq<Seq<char>>);

/// What one line of an EOP C04 file gives: nothing for a header line, the
/// fields of a data line, or the message of its invalid year, month or
/// day.
pub open spec fn eop_line(line: Seq<char>) -> Result<Option<EopLineSpec>, Seq<char>> {
    let t = trim(line);
    let ws = words(t);
    if t.len() == 0 || !is_digit(t[0]) || ws.len() < 8 {
        Ok(None)
    } else {
        let year = parse_int(ws[0], 0, u32_max());
        let month = parse_int(ws[1], 0, u32_max());
        let day = parse_int(ws[2], 0, u32_max());
        if year is Err {
            Err(int_error_message(year->Err_0))
        } else if month is Err {
            Err(int_error_message(month->Err_0))
        } else if day is Err {
            Err(int_error_message(day->Err_0))
        } else {
            Ok(Some((year->Ok_0, month->Ok_0, day->Ok_0, ws.subrange(3, 8))))
        }
    }
}

/// The fields of an EOP C04 data line.
#[derive(Debug)]
pub struct EopLineFields {
    pub year: u32,
    pub month: u32,
    pub day: u32,
    /// Texts of the MJD, x-pole, y-pole, UT1-UTC and LOD columns.
    pub values: Vec<String>,
}

/// The views of a vector of strings.
pub open spec fn string_views(v: Seq<String>) -> Seq<Seq<char>> {
    v.map_values(|s: String| s@)
}

/// The view of an optional line.
pub open spec fn opt_eop(o: Option<EopLineFields>) -> Option<EopLineSpec> {
    match o {
        Some(f) => Some((f.year as int, f.month as int, f.day as int, string_views(f.values@))),
        None => None,
    }
}

fn field_u32(w: &Vec<char>) -> (r: Result<u32, String>)
    ensures
        match r {
            Ok(v) => parse_int(w@, 0, u32_max()) == Ok::<int, IntError>(v as int),
            Err(m) => parse_int(w@, 0, u32_max()) is Err && m@ == int_error_message(
                parse_int(w@, 0, u32_max())->Err_0,
            ),
        },
{
    match parse_integer(w, 0, 0xffff_ffff) {
        Ok(v) => Ok(v as u32),
        Err(e) => Err(
            match e {
                IntError::Empty => String::from_str("cannot parse integer from empty string"),
                IntError::InvalidDigit => String::from_str("invalid digit found in string"),
                IntError::PosOverflow => String::from_str("number too large to fit in target type"),
                IntError::NegOverflow => String::from_str("number too small to fit in target type"),
            },
        ),
    }
}

/// Splits one line of an EOP C04 file: `None` for a header line (blank,
/// not starting with a digit, or with fewer than eight fields); otherwise
/// the year, month and day and the texts of the next five columns. Fails
/// with a `Data` error carrying the integer parse message when the year,
/// month or day is not a `u32`.
pub fn eop_line_fields(line: &str) -> (r: Result<Option<EopLineFields>, ApogeeError>)
    ensures
        match eop_line(line@) {
            Ok(x) => r matches Ok(y) && opt_eop(y) == x,
            Err(m) => r matches Err(ApogeeError::Data(msg)) && msg@ == m,
        },
{
    let v = chars_of(line);
    let (a, b) = trim_range(&v, 0, v.len());
    assert(v@.subrange(0, v@.len() as int) == v@);
    if a == b || !('0' <= v[a] && v[a] <= '9') {
        return Ok(None);
    }
    let ws = words_of(&v, a, b);
    if ws.len() < 8 {
        return Ok(None);
    }
    let ghost wv = views(ws@);
    assert(forall|i: int| 0 <= i < ws@.len() ==> #[trigger] wv[i] == ws@[i]@);
    let year = match field_u32(&ws[0]) {
        Ok(x) => x,
        Err(m) => return Err(ApogeeError::Data(m)),
    };
    let month = match field_u32(&ws[1]) {
        Ok(x) => x,
        Err(m) => return Err(ApogeeError::Data(m)),
    };
    let day = match field_u32(&ws[2]) {
        Ok(x) => x,
        Err(m) => return Err(ApogeeError::Data(m)),
    };
    let mut values: Vec<String> = Vec::new();
    let mut k: usize = 3;
    while k < 8
        invariant
            3 <= k <= 8 <= ws@.len(),
            wv == views(ws@),
            string_views(values@) == wv.subrange(3, k as int),
        decreases 8 - k,
    {
        let w = &ws[k];
        let s = string_of(w, 0, w.len());
        assert(w@.subrange(0, w@.len() as int) == w@);
        let ghost before = string_views(values@);
        values.push(s);
        assert(string_views(values@) == before.push(wv[k as int]));
        assert(wv.subrange(3, k + 1) == wv.subrange(3, k as int).push(wv[k as int]));
        k += 1;
    }
    Ok(Some(EopLineFields { year, month, day, values }))
}


/// The message of the first of `vals` that `f64::from_str` refuses, if any.
pub open spec fn first_float_error(vals: Seq<Seq<char>>) -> Option<Seq<char>>
    decreases vals.len(),
{
    if vals.len() == 0 {
        None
    } else if !is_float_text(vals[0]) {
        Some(float_error_message(vals[0]))
    } else {
        first_float_error(vals.drop_first())
    }
}

/// The data lines of an EOP C04 text, in order, or the message of the
/// first error: an invalid year, month or day, or a value column that is
/// not a float.
pub open spec fn eop_lines(ls: Seq<Seq<char>>) -> Result<Seq<EopLineSpec>, Seq<char>>
    decreases ls.len(),
{
    if ls.len() == 0 {
        Ok(Seq::<EopLineSpec>::empty())
    } else {
        match eop_lines(ls.drop_last()) {
            Err(m) => Err(m),
            Ok(es) => match eop_line(ls.last()) {
                Err(m) => Err(m),
                Ok(None) => Ok(es),
                Ok(Some(f)) => match first_float_error(f.3) {
                    Some(m) => Err(m),
                    None => Ok(es.push(f)),
                },
            },
        }
    }
}

proof fn lemma_eop_lines_err(ls: Seq<Seq<char>>, k: int)
    requires
        0 <= k <= ls.len(),
        eop_lines(ls.take(k)) is Err,
    ensures
        eop_lines(ls) == eop_lines(ls.take(k)),
    decreases ls.len(),
{
    if ls.len() > k {
        assert(ls.drop_last().take(k) == ls.take(k));
        lemma_eop_lines_err(ls.drop_last(), k);
    } else {
        assert(ls.take(k) == ls);
    }
}

/// The views of data lines.
pub open spec fn eop_views(v: Seq<EopLineFields>) -> Seq<EopLineSpec> {
    v.map_values(|f: EopLineFields| (f.year as int, f.month as int, f.day as int, string_views(f.values@)))
}

/// The message of the first value text that is not a float, if any.
fn float_columns(values: &Vec<String>) -> (r: Option<String>)
    ensures
        match first_float_error(string_views(values@)) {
            Some(m) => r matches Some(x) && x@ == m,
            None => r is None,
        },
{
    let ghost vs = string_views(values@);
    let mut i: usize = 0;
    assert(vs.skip(0) =~= vs);
    while i < values.len()
        invariant
            i <= values@.len(),
            vs == string_views(values@),
            first_float_error(vs) == first_float_error(vs.skip(i as int)),
        decreases values@.len() - i,
    {
        let v = chars_of(values[i].as_str());
        assert(vs.skip(i as int)[0] == values@[i as int]@);
        assert(vs.skip(i as int).drop_first() =~= vs.skip(i + 1));
        if parse_rounded_u64(&v).is_none() {
            if v.len() == 0 {
                return Some(String::from_str("cannot parse float from empty string"));
            } else {
                return Some(String::from_str("invalid float literal"));
            }
        }
        i += 1;
    }
    assert(vs.skip(i as int).len() == 0);
    None
}

/// Reads the data lines of an EOP C04 text (as `str::lines` splits it):
/// header lines are skipped, and each data line gives its year, month and
/// day and the texts of its MJD, x-pole, y-pole, UT1-UTC and LOD columns.
/// Fails with a `Data` error carrying the parse message of the first
/// invalid year, month or day, or of the first value column that is not a
/// float, in file order.
pub fn eop_fields(input: &str) -> (r: Result<Vec<EopLineFields>, ApogeeError>)
    ensures
        match eop_lines(input_lines(input@)) {
            Ok(es) => r matches Ok(v) && eop_views(v@) == es,
            Err(m) => r matches Err(ApogeeError::Data(msg)) && msg@ == m,
        },
{
    let v = chars_of(input);
    let rs = split_ranges(&v, '\n');
    let ghost ls = input_lines(input@);
    assert(ls.len() == rs@.len());
    let mut out: Vec<EopLineFields> = Vec::new();
    let mut k: usize = 0;
    assert(ls.take(0) =~= Seq::<Seq<char>>::empty());
    assert(eop_views(out@) =~= Seq::<EopLineSpec>::empty());
    while k < rs.len()
        invariant
            k <= rs@.len(),
            v@ == input@,
            ls == input_lines(input@),
            ls.len() == rs@.len(),
            pieces(v@, rs@) == split_by(v@, '\n'),
            forall|j: int| 0 <= j < rs@.len() ==> #[trigger] rs@[j].0 <= rs@[j].1 <= v@.len(),
            eop_lines(ls.take(k as int)) == Ok::<Seq<EopLineSpec>, Seq<char>>(eop_views(out@)),
        decreases rs@.len() - k,
    {
        let (lo, hi0) = rs[k];
        let hi = if k + 1 < rs.len() && hi0 > lo && v[hi0 - 1] == '\r' {
            hi0 - 1
        } else {
            hi0
        };
        assert(pieces(v@, rs@)[k as int] == v@.subrange(lo as int, hi0 as int));
        assert(v@.subrange(lo as int, hi as int) == ls[k as int]);
        assert(ls.take(k + 1).drop_last() == ls.take(k as int));
        assert(ls.take(k + 1).last() == ls[k as int]);
        let line = string_of(&v, lo, hi);
        match eop_line_fields(line.as_str()) {
            Err(e) => {
                proof {
                    lemma_eop_lines_err(ls, (k + 1) as int);
                }
                return Err(e);
            },
            Ok(None) => {},
            Ok(Some(f)) => {
                match float_columns(&f.values) {
                    Some(m) => {
                        proof {
                            lemma_eop_lines_err(ls, (k + 1) as int);
                        }
                        return Err(ApogeeError::Data(m));
                    },
                    None => {},
                }
                let ghost fv = (f.year as int, f.month as int, f.day as int, string_views(f.values@));
                let ghost before = eop_views(out@);
                out.push(f);
                assert(eop_views(out@) == before.push(fv));
            },
        }
        k += 1;
    }
    assert(ls.take(ls.len() as int) == ls);
    Ok(out)
}
} // verus!
