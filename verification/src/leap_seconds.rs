//! Leap second table parser.
//!
//! Parses IERS leap second announcement files in two formats:
//!
//! 1. IERS `Leap_Second.dat` / `tai-utc.dat`: columns MJD day month year
//!    TAI-UTC, e.g. `41317.0    1  1 1972       10`.
//! 2. NAIF `naif0012.tls` style: a `+` and then year month day MJD TAI-UTC,
//!    e.g. `+ 1972  1  1 41317 10`.
//!
//! Blank lines and lines starting with `#` are skipped.
use vstd::prelude::*;
use vstd::string::StringExecFns;

use crate::decimal::{is_float_text, parse_rounded_u64, rounded_u64};
use crate::error::ApogeeError;
use crate::text::{
    IntError, is_ws, lemma_words_nonempty, chars_of, int_error_message, parse_int, parse_integer,
    pieces, push_char, push_decimal, push_str, split_by,
    split_ranges, string_of, views, words, words_of, decimal,
};

verus! {

/// A single leap second entry.
#[derive(Debug, Clone, Copy)]
pub struct LeapSecondEntry {
    pub year: u32,
    pub month: u32,
    pub day: u32,
    pub mjd: u64,
    pub tai_utc: i32,
}

/// Leap second table, held in ascending order of MJD.
#[derive(Debug)]
pub struct LeapSecondTable {
    entries: Vec<LeapSecondEntry>,
}

// ---------------------------------------------------------------------------
// Specification of the table's order and of the lookup
// ---------------------------------------------------------------------------

/// The entries are in ascending order of MJD.
pub open spec fn sorted_by_mjd(s: Seq<LeapSecondEntry>) -> bool {
    forall|i: int, j: int| 0 <= i < j < s.len() ==> s[i].mjd <= s[j].mjd
}

/// `s` with `e` placed after every entry whose MJD is at most `e.mjd`
/// (one step of a stable sort by MJD).
pub open spec fn insert_by_mjd(s: Seq<LeapSecondEntry>, e: LeapSecondEntry) -> Seq<
    LeapSecondEntry,
>
    decreases s.len(),
{
    if s.len() == 0 {
        seq![e]
    } else if s.last().mjd <= e.mjd {
        s.push(e)
    } else {
        insert_by_mjd(s.drop_last(), e).push(s.last())
    }
}

/// The stable sort of `s` by MJD: ascending MJD, and entries with equal
/// MJD in the order they were given (what `sort_by_key` gives).
pub open spec fn sort_by_mjd(s: Seq<LeapSecondEntry>) -> Seq<LeapSecondEntry>
    decreases s.len(),
{
    if s.len() == 0 {
        s
    } else {
        insert_by_mjd(sort_by_mjd(s.drop_last()), s.last())
    }
}

/// The TAI-UTC offset of the last entry (from the end) whose MJD is at or
/// before `mjd`, or 0 when there is none.
pub open spec fn offset_at(s: Seq<LeapSecondEntry>, mjd: u64) -> i32
    decreases s.len(),
{
    if s.len() == 0 {
        0
    } else if s.last().mjd <= mjd {
        s.last().tai_utc
    } else {
        offset_at(s.drop_last(), mjd)
    }
}

// ---------------------------------------------------------------------------
// Specification of the parser
// ---------------------------------------------------------------------------

/// `s` without one trailing carriage return.
pub open spec fn strip_cr(s: Seq<char>) -> Seq<char> {
    if s.len() > 0 && s.last() == '\r' {
        s.drop_last()
    } else {
        s
    }
}

/// The lines of `s` as `str::lines` gives them: the pieces between line
/// feeds, with the carriage return of a `\r\n` ending removed. (A final
/// empty piece, which `str::lines` leaves out, has no fields and is
/// skipped by the parser either way.)
pub open spec fn input_lines(s: Seq<char>) -> Seq<Seq<char>> {
    let p = split_by(s, '\n');
    Seq::new(p.len(), |k: int| if k < p.len() - 1 { strip_cr(p[k]) } else { p[k] })
}

/// The fields of a data line: its words, with the `+` that marks the NAIF
/// format removed from the first.
pub open spec fn line_fields(ws: Seq<Seq<char>>) -> Seq<Seq<char>> {
    if ws[0][0] != '+' {
        ws
    } else if ws[0].len() == 1 {
        ws.drop_first()
    } else {
        ws.update(0, ws[0].drop_first())
    }
}

/// The message for a data line with fewer than five fields.
pub open spec fn field_count_message(n: nat, line: Seq<char>) -> Seq<char> {
    "leap second line needs 5 fields, got "@ + decimal(n) + ": "@ + line
}

/// The largest `u32`.
pub open spec fn u32_max() -> int {
    0xffff_ffff
}

/// The message of the first field of a NAIF line that does not parse, or
/// the entry that the line describes.
pub open spec fn naif_entry(f: Seq<Seq<char>>) -> Result<LeapSecondEntry, Seq<char>> {
    let year = parse_int(f[0], 0, u32_max());
    let month = parse_int(f[1], 0, u32_max());
    let day = parse_int(f[2], 0, u32_max());
    let mjd = parse_int(f[3], 0, 0xffff_ffff_ffff_ffff);
    let off = parse_int(f[4], -0x8000_0000, 0x7fff_ffff);
    if year is Err {
        Err(int_error_message(year->Err_0))
    } else if month is Err {
        Err(int_error_message(month->Err_0))
    } else if day is Err {
        Err(int_error_message(day->Err_0))
    } else if mjd is Err {
        Err(int_error_message(mjd->Err_0))
    } else if off is Err {
        Err(int_error_message(off->Err_0))
    } else {
        Ok(
            LeapSecondEntry {
                year: year->Ok_0 as u32,
                month: month->Ok_0 as u32,
                day: day->Ok_0 as u32,
                mjd: mjd->Ok_0 as u64,
                tai_utc: off->Ok_0 as i32,
            },
        )
    }
}

/// The message of the first field of an IERS line that does not parse, or
/// the entry that the line describes (its MJD rounded to a whole day).
pub open spec fn iers_entry(f: Seq<Seq<char>>) -> Result<LeapSecondEntry, Seq<char>> {
    let day = parse_int(f[1], 0, u32_max());
    let month = parse_int(f[2], 0, u32_max());
    let year = parse_int(f[3], 0, u32_max());
    let off = parse_int(f[4], -0x8000_0000, 0x7fff_ffff);
    if !is_float_text(f[0]) {
        Err("invalid float literal"@)
    } else if day is Err {
        Err(int_error_message(day->Err_0))
    } else if month is Err {
        Err(int_error_message(month->Err_0))
    } else if year is Err {
        Err(int_error_message(year->Err_0))
    } else if off is Err {
        Err(int_error_message(off->Err_0))
    } else {
        Ok(
            LeapSecondEntry {
                year: year->Ok_0 as u32,
                month: month->Ok_0 as u32,
                day: day->Ok_0 as u32,
                mjd: rounded_u64(f[0]) as u64,
                tai_utc: off->Ok_0 as i32,
            },
        )
    }
}

/// What one line contributes: nothing (blank or comment), an entry, or the
/// message of the error that stops the parse.
pub open spec fn parse_line(line: Seq<char>) -> Result<Option<LeapSecondEntry>, Seq<char>> {
    let ws = words(line);
    if ws.len() == 0 || ws[0][0] == '#' {
        Ok(None)
    } else {
        let f = line_fields(ws);
        if f.len() < 5 {
            Err(field_count_message(f.len(), line))
        } else {
            let e = if ws[0][0] == '+' { naif_entry(f) } else { iers_entry(f) };
            match e {
                Ok(x) => Ok(Some(x)),
                Err(m) => Err(m),
            }
        }
    }
}

/// The entries of `ls` in line order, or the message of the first line
/// that fails.
pub open spec fn parse_lines(ls: Seq<Seq<char>>) -> Result<Seq<LeapSecondEntry>, Seq<char>>
    decreases ls.len(),
{
    if ls.len() == 0 {
        Ok(Seq::<LeapSecondEntry>::empty())
    } else {
        match parse_lines(ls.drop_last()) {
            Err(m) => Err(m),
            Ok(es) => match parse_line(ls.last()) {
                Err(m) => Err(m),
                Ok(None) => Ok(es),
                Ok(Some(e)) => Ok(es.push(e)),
            },
        }
    }
}

// ---------------------------------------------------------------------------
// Lemmas
// ---------------------------------------------------------------------------

proof fn lemma_insert_sorted(s: Seq<LeapSecondEntry>, e: LeapSecondEntry)
    requires
        sorted_by_mjd(s),
    ensures
        sorted_by_mjd(insert_by_mjd(s, e)),
        insert_by_mjd(s, e).len() == s.len() + 1,
        insert_by_mjd(s, e).to_multiset() == s.to_multiset().insert(e),
        forall|i: int|
            0 <= i < insert_by_mjd(s, e).len() ==> (#[trigger] insert_by_mjd(s, e)[i] == e || s.contains(
                insert_by_mjd(s, e)[i],
            )),
    decreases s.len(),
{
    broadcast use vstd::seq_lib::group_seq_properties;
    broadcast use vstd::multiset::group_multiset_axioms;

    if s.len() == 0 {
        assert(seq![e] == Seq::<LeapSecondEntry>::empty().push(e));
    } else if s.last().mjd <= e.mjd {
    } else {
        let t = s.drop_last();
        assert(sorted_by_mjd(t));
        lemma_insert_sorted(t, e);
        let r = insert_by_mjd(t, e);
        assert(s == t.push(s.last()));
        assert forall|i: int| 0 <= i < r.len() implies r[i].mjd <= s.last().mjd by {
            if r[i] != e {
                assert(t.contains(r[i]));
                let k = choose|k: int| 0 <= k < t.len() && t[k] == r[i];
                assert(s[k] == t[k]);
            }
        }
        assert forall|i: int| 0 <= i < r.push(s.last()).len() implies (#[trigger] r.push(
            s.last(),
        )[i] == e || s.contains(r.push(s.last())[i])) by {
            if i < r.len() {
                if r[i] != e {
                    assert(t.contains(r[i]));
                    let k = choose|k: int| 0 <= k < t.len() && t[k] == r[i];
                    assert(s[k] == r[i]);
                }
            } else {
                assert(s[s.len() - 1] == s.last());
            }
        }
    }
}

/// The stable sort by MJD is in ascending MJD order and holds exactly the
/// entries it was given.
pub proof fn lemma_sort_by_mjd(s: Seq<LeapSecondEntry>)
    ensures
        sorted_by_mjd(sort_by_mjd(s)),
        sort_by_mjd(s).len() == s.len(),
        sort_by_mjd(s).to_multiset() == s.to_multiset(),
    decreases s.len(),
{
    broadcast use vstd::seq_lib::group_seq_properties;
    broadcast use vstd::multiset::group_multiset_axioms;

    if s.len() > 0 {
        lemma_sort_by_mjd(s.drop_last());
        lemma_insert_sorted(sort_by_mjd(s.drop_last()), s.last());
        assert(s == s.drop_last().push(s.last()));
    }
}

/// Where `insert_by_mjd` places the new entry: after the prefix `s[..p]`,
/// when every entry from `p` on has a larger MJD and the one before `p`
/// does not.
proof fn lemma_insert_at(s: Seq<LeapSecondEntry>, e: LeapSecondEntry, p: int)
    requires
        0 <= p <= s.len(),
        forall|i: int| p <= i < s.len() ==> #[trigger] s[i].mjd > e.mjd,
        p > 0 ==> s[p - 1].mjd <= e.mjd,
    ensures
        insert_by_mjd(s, e) == s.insert(p, e),
    decreases s.len(),
{
    if s.len() == 0 {
        assert(s.insert(p, e) == seq![e]);
    } else if s.last().mjd <= e.mjd {
        assert(p == s.len());
        assert(s.insert(p, e) == s.push(e));
    } else {
        lemma_insert_at(s.drop_last(), e, p);
        assert(s.insert(p, e) == s.drop_last().insert(p, e).push(s.last()));
    }
}

/// On a table in ascending MJD order, the lookup gives the offset of the
/// last entry at or before `mjd`: every later entry lies after `mjd`.
proof fn lemma_offset_at(s: Seq<LeapSecondEntry>, mjd: u64)
    ensures
        (forall|i: int| 0 <= i < s.len() ==> #[trigger] s[i].mjd > mjd) ==> offset_at(s, mjd)
            == 0,
        forall|k: int|
            0 <= k < s.len() && s[k].mjd <= mjd && (forall|i: int|
                k < i < s.len() ==> #[trigger] s[i].mjd > mjd) ==> offset_at(s, mjd)
                == #[trigger] s[k].tai_utc,
    decreases s.len(),
{
    if s.len() > 0 {
        let t = s.drop_last();
        lemma_offset_at(t, mjd);
        assert forall|k: int|
            0 <= k < s.len() && s[k].mjd <= mjd && (forall|i: int|
                k < i < s.len() ==> #[trigger] s[i].mjd > mjd) implies offset_at(s, mjd)
            == #[trigger] s[k].tai_utc by {
            if k < s.len() - 1 {
                assert(s[s.len() - 1].mjd > mjd);
                assert(t[k] == s[k]);
                assert forall|i: int| k < i < t.len() implies #[trigger] t[i].mjd > mjd by {
                    assert(t[i] == s[i]);
                }
            }
        }
        if forall|i: int| 0 <= i < s.len() ==> #[trigger] s[i].mjd > mjd {
            assert(s[s.len() - 1].mjd > mjd);
            assert forall|i: int| 0 <= i < t.len() implies #[trigger] t[i].mjd > mjd by {
                assert(t[i] == s[i]);
            }
        }
    }
}

/// The lookup law of the table: before the first entry the offset is 0;
/// otherwise it is the offset of the last entry at or before `mjd`, so on
/// an MJD shared by several entries the last of them counts.
pub proof fn lemma_lookup_law(s: Seq<LeapSecondEntry>, mjd: u64)
    requires
        sorted_by_mjd(s),
    ensures
        (s.len() == 0 || mjd < s[0].mjd) ==> offset_at(s, mjd) == 0,
        forall|k: int|
            0 <= k < s.len() && s[k].mjd <= mjd && (k + 1 == s.len() || s[k + 1].mjd > mjd)
                ==> offset_at(s, mjd) == #[trigger] s[k].tai_utc,
{
    lemma_offset_at(s, mjd);
    if s.len() > 0 && mjd < s[0].mjd {
        assert forall|i: int| 0 <= i < s.len() implies #[trigger] s[i].mjd > mjd by {
            assert(s[0].mjd <= s[i].mjd);
        }
    }
    assert forall|k: int|
        0 <= k < s.len() && s[k].mjd <= mjd && (k + 1 == s.len() || s[k + 1].mjd > mjd)
            implies offset_at(s, mjd) == #[trigger] s[k].tai_utc by {
        assert forall|i: int| k < i < s.len() implies #[trigger] s[i].mjd > mjd by {
            assert(s[k + 1].mjd <= s[i].mjd);
        }
    }
}

// ---------------------------------------------------------------------------
// Implementation
// ---------------------------------------------------------------------------

/// Appends `e` to the sorted vector `v` at the place the stable sort by MJD
/// gives it.
fn insert_sorted(v: &mut Vec<LeapSecondEntry>, e: LeapSecondEntry)
    requires
        sorted_by_mjd(old(v)@),
    ensures
        final(v)@ == insert_by_mjd(old(v)@, e),
        sorted_by_mjd(final(v)@),
{
    let mut p = v.len();
    while p > 0 && v[p - 1].mjd > e.mjd
        invariant
            0 <= p <= v@.len(),
            forall|i: int| p <= i < v@.len() ==> #[trigger] v@[i].mjd > e.mjd,
        decreases p,
    {
        p -= 1;
    }
    proof {
        lemma_insert_at(v@, e, p as int);
        lemma_insert_sorted(v@, e);
    }
    v.insert(p, e);
}

/// Parses a field with `str::parse` semantics for an integer type of range
/// `min..=max`, giving the `ParseIntError` message on failure.
fn parse_field(f: &Vec<char>, min: i128, max: i128) -> (r: Result<i128, String>)
    requires
        i64::MIN <= min <= 0 <= max <= u64::MAX,
    ensures
        match r {
            Ok(v) => parse_int(f@, min as int, max as int) == Ok::<int, IntError>(v as int) && min
                <= v <= max,
            Err(m) => parse_int(f@, min as int, max as int) is Err && m@ == int_error_message(
                parse_int(f@, min as int, max as int)->Err_0,
            ),
        },
{
    match parse_integer(f, min, max) {
        Ok(v) => Ok(v),
        Err(e) => {
            let m = match e {
                IntError::Empty => String::from_str("cannot parse integer from empty string"),
                IntError::InvalidDigit => String::from_str("invalid digit found in string"),
                IntError::PosOverflow => String::from_str("number too large to fit in target type"),
                IntError::NegOverflow => String::from_str("number too small to fit in target type"),
            };
            Err(m)
        },
    }
}

/// Parses one line of the table: nothing for a blank or comment line, the
/// entry of a data line, or the message of its error.
fn parse_one_line(v: &Vec<char>, lo: usize, hi: usize) -> (r: Result<
    Option<LeapSecondEntry>,
    String,
>)
    requires
        lo <= hi <= v.len(),
    ensures
        match r {
            Ok(x) => parse_line(v@.subrange(lo as int, hi as int)) == Ok::<
                Option<LeapSecondEntry>,
                Seq<char>,
            >(x),
            Err(m) => parse_line(v@.subrange(lo as int, hi as int)) == Err::<
                Option<LeapSecondEntry>,
                Seq<char>,
            >(m@),
        },
{
    let ghost line = v@.subrange(lo as int, hi as int);
    let ws = words_of(v, lo, hi);
    let ghost wv = views(ws@);
    if ws.len() == 0 {
        return Ok(None);
    }
    assert(wv[0] == ws@[0]@);
    proof {
        // A word is never empty.
        lemma_words_nonempty_parts(line);
    }
    let first = ws[0][0];
    if first == '#' {
        return Ok(None);
    }
    let naif = first == '+';
    // Collect the fields.
    let mut f: Vec<Vec<char>> = Vec::new();
    let mut k: usize = 0;
    if naif {
        if ws[0].len() > 1 {
            let mut w0: Vec<char> = Vec::new();
            let mut j: usize = 1;
            while j < ws[0].len()
                invariant
                    ws@.len() > 0,
                    1 <= j <= ws@[0]@.len(),
                    w0@ == ws@[0]@.subrange(1, j as int),
                decreases ws@[0]@.len() - j,
            {
                w0.push(ws[0][j]);
                assert(ws@[0]@.subrange(1, j + 1) == ws@[0]@.subrange(1, j as int).push(
                    ws@[0]@[j as int],
                ));
                j += 1;
            }
            assert(w0@ == ws@[0]@.drop_first());
            f.push(w0);
        }
        k = 1;
    }
    let ghost base = views(f@);
    while k < ws.len()
        invariant
            k <= ws@.len(),
            k >= 1 || !naif,
            views(f@) == base + wv.subrange(if naif { 1int } else { 0int }, k as int),
            wv == views(ws@),
        decreases ws@.len() - k,
    {
        let w = ws[k].clone();
        assert(w@ == ws@[k as int]@);
        let ghost before = views(f@);
        f.push(w);
        assert(views(f@) == before.push(wv[k as int]));
        assert(wv.subrange(if naif { 1int } else { 0int }, k + 1) == wv.subrange(
            if naif { 1int } else { 0int },
            k as int,
        ).push(wv[k as int]));
        k += 1;
    }
    assert(views(f@) == line_fields(wv)) by {
        if naif {
            if wv[0].len() == 1 {
                assert(wv.drop_first() == wv.subrange(1, wv.len() as int));
            } else {
                assert(base == seq![wv[0].drop_first()]);
                assert(wv.update(0, wv[0].drop_first()) == seq![wv[0].drop_first()]
                    + wv.subrange(1, wv.len() as int));
            }
        } else {
            assert(wv.subrange(0, wv.len() as int) == wv);
        }
    }
    let ghost fv = views(f@);
    if f.len() < 5 {
        let mut m = String::from_str("leap second line needs 5 fields, got ");
        push_decimal(&mut m, f.len() as u64);
        push_str(&mut m, ": ");
        let text = string_of(v, lo, hi);
        push_str(&mut m, text.as_str());
        return Err(m);
    }
    assert(f@[0]@ == fv[0] && f@[1]@ == fv[1] && f@[2]@ == fv[2] && f@[3]@ == fv[3] && f@[4]@
        == fv[4]);
    let u32max: i128 = 0xffff_ffff;
    if naif {
        let year = match parse_field(&f[0], 0, u32max) {
            Ok(x) => x,
            Err(m) => return Err(m),
        };
        let month = match parse_field(&f[1], 0, u32max) {
            Ok(x) => x,
            Err(m) => return Err(m),
        };
        let day = match parse_field(&f[2], 0, u32max) {
            Ok(x) => x,
            Err(m) => return Err(m),
        };
        let mjd = match parse_field(&f[3], 0, 0xffff_ffff_ffff_ffff) {
            Ok(x) => x,
            Err(m) => return Err(m),
        };
        let off = match parse_field(&f[4], -0x8000_0000, 0x7fff_ffff) {
            Ok(x) => x,
            Err(m) => return Err(m),
        };
        Ok(
            Some(
                LeapSecondEntry {
                    year: year as u32,
                    month: month as u32,
                    day: day as u32,
                    mjd: mjd as u64,
                    tai_utc: off as i32,
                },
            ),
        )
    } else {
        let mjd = match parse_rounded_u64(&f[0]) {
            Some(x) => x,
            None => return Err(String::from_str("invalid float literal")),
        };
        let day = match parse_field(&f[1], 0, u32max) {
            Ok(x) => x,
            Err(m) => return Err(m),
        };
        let month = match parse_field(&f[2], 0, u32max) {
            Ok(x) => x,
            Err(m) => return Err(m),
        };
        let year = match parse_field(&f[3], 0, u32max) {
            Ok(x) => x,
            Err(m) => return Err(m),
        };
        let off = match parse_field(&f[4], -0x8000_0000, 0x7fff_ffff) {
            Ok(x) => x,
            Err(m) => return Err(m),
        };
        Ok(
            Some(
                LeapSecondEntry {
                    year: year as u32,
                    month: month as u32,
                    day: day as u32,
                    mjd,
                    tai_utc: off as i32,
                },
            ),
        )
    }
}

/// Every word of a string is non-empty.
proof fn lemma_words_nonempty_parts(s: Seq<char>)
    ensures
        forall|i: int| 0 <= i < words(s).len() ==> #[trigger] words(s)[i].len() > 0,
    decreases s.len(),
{
    if s.len() > 0 {
        let w = words(s.drop_last());
        lemma_words_nonempty_parts(s.drop_last());
        if is_ws(s.last()) {
        } else if s.len() >= 2 && !is_ws(s[s.len() - 2]) {
            lemma_words_nonempty(s.drop_last());
            assert forall|i: int| 0 <= i < words(s).len() implies #[trigger] words(s)[i].len()
                > 0 by {
                if i < w.len() - 1 {
                    assert(words(s)[i] == w[i]);
                }
            }
        } else {
            assert forall|i: int| 0 <= i < words(s).len() implies #[trigger] words(s)[i].len()
                > 0 by {
                if i < w.len() {
                    assert(words(s)[i] == w[i]);
                }
            }
        }
    }
}

impl LeapSecondTable {
    /// The entries of the table, in ascending order of MJD.
    pub closed spec fn view(&self) -> Seq<LeapSecondEntry> {
        self.entries@
    }

    #[verifier::type_invariant]
    spec fn well_ordered(&self) -> bool {
        sorted_by_mjd(self.entries@)
    }

    /// Parses a leap second table in either supported format.
    ///
    /// Succeeds exactly when every line is blank, a comment, or a data line
    /// with at least five fields that all parse; the entries then come in
    /// ascending order of MJD, entries with equal MJD in file order. On
    /// failure the error is `Data` with the message of the first failing
    /// line.
    pub fn parse(input: &str) -> (r: Result<Self, ApogeeError>)
        ensures
            match parse_lines(input_lines(input@)) {
                Ok(es) => r matches Ok(t) && t.view() == sort_by_mjd(es) && sorted_by_mjd(t.view()),
                Err(m) => r matches Err(ApogeeError::Data(msg)) && msg@ == m,
            },
    {
        let v = chars_of(input);
        let rs = split_ranges(&v, '\n');
        let ghost p = split_by(v@, '\n');
        let ghost ls = input_lines(input@);
        assert(ls.len() == rs@.len());
        let mut entries: Vec<LeapSecondEntry> = Vec::new();
        let ghost mut parsed: Seq<LeapSecondEntry> = Seq::empty();
        let mut k: usize = 0;
        while k < rs.len()
            invariant
                k <= rs@.len(),
                v@ == input@,
                ls == input_lines(input@),
                ls.len() == rs@.len(),
                pieces(v@, rs@) == split_by(v@, '\n'),
                forall|j: int| 0 <= j < rs@.len() ==> #[trigger] rs@[j].0 <= rs@[j].1 <= v@.len(),
                parse_lines(ls.take(k as int)) == Ok::<Seq<LeapSecondEntry>, Seq<char>>(parsed),
                entries@ == sort_by_mjd(parsed),
                sorted_by_mjd(entries@),
            decreases rs@.len() - k,
        {
            let (lo, hi0) = rs[k];
            let hi = if k + 1 < rs.len() && hi0 > lo && v[hi0 - 1] == '\r' {
                hi0 - 1
            } else {
                hi0
            };
            assert(pieces(v@, rs@)[k as int] == v@.subrange(lo as int, hi0 as int));
            assert(v@.subrange(lo as int, hi as int) == ls[k as int]);
            assert(ls.take(k + 1).drop_last() == ls.take(k as int));
            assert(ls.take(k + 1).last() == ls[k as int]);
            match parse_one_line(&v, lo, hi) {
                Err(m) => {
                    proof {
                        lemma_parse_lines_err(ls, (k + 1) as int);
                    }
                    return Err(ApogeeError::Data(m));
                },
                Ok(None) => {},
                Ok(Some(e)) => {
                    proof {
                        lemma_sort_by_mjd(parsed);
                        assert(parsed.push(e).drop_last() == parsed);
                        parsed = parsed.push(e);
                    }
                    insert_sorted(&mut entries, e);
                },
            }
            k += 1;
        }
        assert(ls.take(ls.len() as int) == ls);
        proof {
            lemma_sort_by_mjd(parsed);
        }
        Ok(LeapSecondTable { entries })
    }

    /// Number of entries.
    pub fn len(&self) -> (n: usize)
        ensures
            n == self.view().len(),
    {
        self.entries.len()
    }

    /// Whether the table has no entries.
    pub fn is_empty(&self) -> (b: bool)
        ensures
            b == (self.view().len() == 0),
    {
        self.entries.len() == 0
    }

    /// The entries, in ascending order of MJD.
    pub fn entries(&self) -> (s: &[LeapSecondEntry])
        ensures
            s@ == self.view(),
            sorted_by_mjd(s@),
    {
        proof {
            use_type_invariant(self);
        }
        self.entries.as_slice()
    }

    /// The TAI-UTC offset at a Modified Julian Date: the offset of the last
    /// entry at or before `mjd`, or 0 before the first entry.
    pub fn tai_utc_at_mjd(&self, mjd: u64) -> (r: i32)
        ensures
            r == offset_at(self.view(), mjd),
            (self.view().len() == 0 || mjd < self.view()[0].mjd) ==> r == 0,
            forall|k: int|
                0 <= k < self.view().len() && self.view()[k].mjd <= mjd && (k + 1
                    == self.view().len() || self.view()[k + 1].mjd > mjd) ==> r
                    == #[trigger] self.view()[k].tai_utc,
    {
        proof {
            use_type_invariant(self);
            lemma_lookup_law(self.entries@, mjd);
        }
        self.offset_scan(mjd)
    }

    /// Scans the entries from the end for the first one at or before `mjd`.
    fn offset_scan(&self, mjd: u64) -> (r: i32)
        ensures
            r == offset_at(self.entries@, mjd),
    {
        let mut i = self.entries.len();
        assert(self.entries@.take(i as int) == self.entries@);
        while i > 0
            invariant
                i <= self.entries@.len(),
                offset_at(self.entries@, mjd) == offset_at(self.entries@.take(i as int), mjd),
            decreases i,
        {
            let ghost t = self.entries@.take(i as int);
            assert(t.drop_last() == self.entries@.take(i - 1));
            assert(t.last() == self.entries@[i - 1]);
            if self.entries[i - 1].mjd <= mjd {
                return self.entries[i - 1].tai_utc;
            }
            i -= 1;
        }
        0
    }
}

/// Once a prefix of the lines fails, the whole parse fails with its message.
proof fn lemma_parse_lines_err(ls: Seq<Seq<char>>, k: int)
    requires
        0 <= k <= ls.len(),
        parse_lines(ls.take(k)) is Err,
    ensures
        parse_lines(ls) == parse_lines(ls.take(k)),
    decreases ls.len(),
{
    if ls.len() > k {
        assert(ls.drop_last().take(k) == ls.take(k));
        lemma_parse_lines_err(ls.drop_last(), k);
    } else {
        assert(ls.take(k) == ls);
    }
}

impl Default for LeapSecondTable {
    fn default() -> (t: Self)
        ensures
            t.view() == Seq::<LeapSecondEntry>::empty(),
    {
        LeapSecondTable { entries: Vec::new() }
    }
}

} // verus!
