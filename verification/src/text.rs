//! Character-level text handling shared by the table and record parsers:
//! whitespace, splitting, trimming, integer parsing and decimal formatting,
//! each stated over `Seq<char>` and implemented over `Vec<char>`.
use vstd::prelude::*;
use vstd::string::StringExecFns;

verus! {

// ---------------------------------------------------------------------------
// Specifications
// ---------------------------------------------------------------------------

/// Unicode `White_Space`, the set that `char::is_whitespace` accepts.
pub open spec fn is_ws(c: char) -> bool {
    let n = c as u32;
    ||| n == 0x20
    ||| 0x09 <= n <= 0x0d
    ||| n == 0x85
    ||| n == 0xa0
    ||| n == 0x1680
    ||| 0x2000 <= n <= 0x200a
    ||| n == 0x2028
    ||| n == 0x2029
    ||| n == 0x202f
    ||| n == 0x205f
    ||| n == 0x3000
}

/// An ASCII decimal digit.
pub open spec fn is_digit(c: char) -> bool {
    '0' <= c <= '9'
}

/// The value of an ASCII decimal digit.
pub open spec fn digit_value(c: char) -> int {
    c as int - '0' as int
}

/// The ASCII character of a decimal digit `d < 10`.
pub open spec fn digit_char(d: nat) -> char {
    (d + '0' as int) as char
}

/// The pieces of `s` between occurrences of `sep`, as `str::split(sep)`
/// yields them: always at least one piece, empty pieces included.
pub open spec fn split_by(s: Seq<char>, sep: char) -> Seq<Seq<char>>
    decreases s.len(),
{
    if s.len() == 0 {
        seq![Seq::<char>::empty()]
    } else {
        let r = split_by(s.drop_last(), sep);
        if s.last() == sep {
            r.push(Seq::<char>::empty())
        } else {
            r.update(r.len() - 1, r.last().push(s.last()))
        }
    }
}

/// The maximal runs of non-whitespace characters of `s`, in order, as
/// `str::split_whitespace` yields them.
pub open spec fn words(s: Seq<char>) -> Seq<Seq<char>>
    decreases s.len(),
{
    if s.len() == 0 {
        Seq::<Seq<char>>::empty()
    } else {
        let w = words(s.drop_last());
        let c = s.last();
        if is_ws(c) {
            w
        } else if s.len() >= 2 && !is_ws(s[s.len() - 2]) {
            w.update(w.len() - 1, w.last().push(c))
        } else {
            w.push(seq![c])
        }
    }
}

/// `s` without its leading whitespace.
pub open spec fn trim_start(s: Seq<char>) -> Seq<char>
    decreases s.len(),
{
    if s.len() > 0 && is_ws(s[0]) {
        trim_start(s.drop_first())
    } else {
        s
    }
}

/// `s` without its trailing whitespace.
pub open spec fn trim_end(s: Seq<char>) -> Seq<char>
    decreases s.len(),
{
    if s.len() > 0 && is_ws(s.last()) {
        trim_end(s.drop_last())
    } else {
        s
    }
}

/// `s` without leading and trailing whitespace, as `str::trim` gives it.
pub open spec fn trim(s: Seq<char>) -> Seq<char> {
    trim_end(trim_start(s))
}

/// The way `str::parse` refuses an integer, one variant per
/// `std::num::IntErrorKind` that the decimal parsers can produce.
#[derive(PartialEq, Eq, Structural, Clone, Copy, Debug)]
pub enum IntError {
    Empty,
    InvalidDigit,
    PosOverflow,
    NegOverflow,
}

/// Left-to-right accumulation of non-negative digits, refusing a
/// non-digit and a running value above `max` at the first place they occur.
pub open spec fn scan_up(d: Seq<char>, max: int) -> Result<int, IntError>
    decreases d.len(),
{
    if d.len() == 0 {
        Ok(0)
    } else {
        match scan_up(d.drop_last(), max) {
            Err(e) => Err(e),
            Ok(v) => if !is_digit(d.last()) {
                Err(IntError::InvalidDigit)
            } else if v * 10 + digit_value(d.last()) > max {
                Err(IntError::PosOverflow)
            } else {
                Ok(v * 10 + digit_value(d.last()))
            },
        }
    }
}

/// Left-to-right accumulation of the digits of a negative number, refusing
/// a non-digit and a running value below `min` at the first place they occur.
pub open spec fn scan_down(d: Seq<char>, min: int) -> Result<int, IntError>
    decreases d.len(),
{
    if d.len() == 0 {
        Ok(0)
    } else {
        match scan_down(d.drop_last(), min) {
            Err(e) => Err(e),
            Ok(v) => if !is_digit(d.last()) {
                Err(IntError::InvalidDigit)
            } else if v * 10 - digit_value(d.last()) < min {
                Err(IntError::NegOverflow)
            } else {
                Ok(v * 10 - digit_value(d.last()))
            },
        }
    }
}

/// What `str::parse` gives for a decimal integer type whose range is
/// `min..=max`: an optional `+` (or `-` where `min < 0`) and then digits.
pub open spec fn parse_int(s: Seq<char>, min: int, max: int) -> Result<int, IntError> {
    if s.len() == 0 {
        Err(IntError::Empty)
    } else if s.len() == 1 && (s[0] == '+' || s[0] == '-') {
        Err(IntError::InvalidDigit)
    } else if s[0] == '+' {
        scan_up(s.drop_first(), max)
    } else if s[0] == '-' && min < 0 {
        scan_down(s.drop_first(), min)
    } else {
        scan_up(s, max)
    }
}

/// The message that `ParseIntError` displays for each kind.
pub open spec fn int_error_message(e: IntError) -> Seq<char> {
    match e {
        IntError::Empty => "cannot parse integer from empty string"@,
        IntError::InvalidDigit => "invalid digit found in string"@,
        IntError::PosOverflow => "number too large to fit in target type"@,
        IntError::NegOverflow => "number too small to fit in target type"@,
    }
}

/// The decimal digits of `n`, as `Display` writes an unsigned integer.
pub open spec fn decimal(n: nat) -> Seq<char>
    decreases n,
{
    if n < 10 {
        seq![digit_char(n)]
    } else {
        decimal(n / 10).push(digit_char(n % 10))
    }
}

/// `n` written in decimal with a leading `-` when negative, as `Display`
/// writes a signed integer.
pub open spec fn signed_decimal(n: int) -> Seq<char> {
    if n < 0 {
        seq!['-'] + decimal((-n) as nat)
    } else {
        decimal(n as nat)
    }
}

// ---------------------------------------------------------------------------
// Lemmas
// ---------------------------------------------------------------------------

/// A string whose last character is not whitespace has at least one word.
pub proof fn lemma_words_nonempty(s: Seq<char>)
    requires
        s.len() > 0,
        !is_ws(s.last()),
    ensures
        words(s).len() > 0,
    decreases s.len(),
{
    if s.len() >= 2 && !is_ws(s[s.len() - 2]) {
        lemma_words_nonempty(s.drop_last());
    }
}

/// `split_by` always yields at least one piece.
pub proof fn lemma_split_nonempty(s: Seq<char>, sep: char)
    ensures
        split_by(s, sep).len() > 0,
    decreases s.len(),
{
    if s.len() > 0 {
        lemma_split_nonempty(s.drop_last(), sep);
    }
}

// ---------------------------------------------------------------------------
// Executable helpers
// ---------------------------------------------------------------------------

/// The characters of `s`, in order.
pub fn chars_of(s: &str) -> (v: Vec<char>)
    ensures
        v@ == s@,
{
    let mut v: Vec<char> = Vec::new();
    for c in it: s.chars()
        invariant
            v@ == it.seq().take(it.index() as int),
    {
        v.push(c);
    }
    v
}

/// Appends one character to a `String`: a call of `String::push`, whose
/// documented effect is that the string then ends with `c` after its
/// previous contents.
#[verifier::external_body]
pub(crate) fn push_char(s: &mut String, c: char)
    ensures
        final(s)@ == old(s)@.push(c),
{
    s.push(c);
}

/// Appends a string slice to a `String`.
pub fn push_str(s: &mut String, t: &str)
    ensures
        final(s)@ == old(s)@ + t@,
{
    s.append(t);
}

/// A `String` holding exactly the characters `v[lo..hi]`.
pub fn string_of(v: &Vec<char>, lo: usize, hi: usize) -> (r: String)
    requires
        lo <= hi <= v.len(),
    ensures
        r@ == v@.subrange(lo as int, hi as int),
{
    let mut r = String::new();
    let mut i = lo;
    while i < hi
        invariant
            lo <= i <= hi <= v.len(),
            r@ == v@.subrange(lo as int, i as int),
        decreases hi - i,
    {
        push_char(&mut r, v[i]);
        assert(v@.subrange(lo as int, i + 1) == v@.subrange(lo as int, i as int).push(v@[i as int]));
        i += 1;
    }
    r
}

/// `char::is_whitespace`.
pub fn is_whitespace(c: char) -> (b: bool)
    ensures
        b == is_ws(c),
{
    let n = c as u32;
    n == 0x20 || (0x09 <= n && n <= 0x0d) || n == 0x85 || n == 0xa0 || n == 0x1680 || (0x2000
        <= n && n <= 0x200a) || n == 0x2028 || n == 0x2029 || n == 0x202f || n == 0x205f || n
        == 0x3000
}


/// The views of a sequence of character vectors.
pub open spec fn views(w: Seq<Vec<char>>) -> Seq<Seq<char>> {
    w.map_values(|x: Vec<char>| x@)
}

/// The pieces `v[r.0..r.1]` named by a sequence of ranges.
pub open spec fn pieces(v: Seq<char>, rs: Seq<(usize, usize)>) -> Seq<Seq<char>> {
    rs.map_values(|r: (usize, usize)| v.subrange(r.0 as int, r.1 as int))
}

/// The index range of `trim(v[lo..hi])` within `v`.
pub fn trim_range(v: &Vec<char>, lo: usize, hi: usize) -> (r: (usize, usize))
    requires
        lo <= hi <= v.len(),
    ensures
        lo <= r.0 <= r.1 <= hi,
        v@.subrange(r.0 as int, r.1 as int) == trim(v@.subrange(lo as int, hi as int)),
{
    let mut a = lo;
    while a < hi && is_whitespace(v[a])
        invariant
            lo <= a <= hi <= v.len(),
            trim_start(v@.subrange(lo as int, hi as int)) == trim_start(
                v@.subrange(a as int, hi as int),
            ),
        decreases hi - a,
    {
        assert(v@.subrange(a as int, hi as int).drop_first() == v@.subrange(a + 1, hi as int));
        a += 1;
    }
    assert(trim_start(v@.subrange(a as int, hi as int)) == v@.subrange(a as int, hi as int));
    let mut b = hi;
    while b > a && is_whitespace(v[b - 1])
        invariant
            lo <= a <= b <= hi <= v.len(),
            trim_end(v@.subrange(a as int, hi as int)) == trim_end(v@.subrange(a as int, b as int)),
        decreases b - a,
    {
        assert(v@.subrange(a as int, b as int).drop_last() == v@.subrange(a as int, b - 1));
        b -= 1;
    }
    (a, b)
}

/// The words of `v[lo..hi]`.
pub fn words_of(v: &Vec<char>, lo: usize, hi: usize) -> (w: Vec<Vec<char>>)
    requires
        lo <= hi <= v.len(),
    ensures
        views(w@) == words(v@.subrange(lo as int, hi as int)),
{
    let mut w: Vec<Vec<char>> = Vec::new();
    let mut cur: Vec<char> = Vec::new();
    let mut i = lo;
    while i < hi
        invariant
            lo <= i <= hi <= v.len(),
            cur@.len() > 0 <==> (i > lo && !is_ws(v@[i - 1])),
            cur@.len() > 0 ==> words(v@.subrange(lo as int, i as int)) == views(w@).push(cur@),
            cur@.len() == 0 ==> words(v@.subrange(lo as int, i as int)) == views(w@),
        decreases hi - i,
    {
        let c = v[i];
        let ghost s = v@.subrange(lo as int, i + 1);
        assert(s.drop_last() == v@.subrange(lo as int, i as int));
        assert(s.last() == c);
        if is_whitespace(c) {
            if cur.len() > 0 {
                let ghost before = views(w@);
                w.push(cur);
                assert(views(w@) == before.push(cur@));
                cur = Vec::new();
            }
        } else {
            if cur.len() > 0 {
                assert(s[s.len() - 2] == v@[i - 1]);
                let ghost ws = views(w@).push(cur@);
                cur.push(c);
                assert(ws.update(ws.len() - 1, ws.last().push(c)) == views(w@).push(cur@));
            } else {
                if i > lo {
                    assert(s[s.len() - 2] == v@[i - 1]);
                }
                cur.push(c);
                assert(cur@ == seq![c]);
            }
        }
        i += 1;
    }
    if cur.len() > 0 {
        let ghost before = views(w@);
        w.push(cur);
        assert(views(w@) == before.push(cur@));
    }
    w
}

/// The ranges of the pieces of `v` between occurrences of `sep`.
pub fn split_ranges(v: &Vec<char>, sep: char) -> (rs: Vec<(usize, usize)>)
    ensures
        pieces(v@, rs@) == split_by(v@, sep),
        forall|k: int| 0 <= k < rs@.len() ==> #[trigger] rs@[k].0 <= rs@[k].1 <= v@.len(),
{
    let mut rs: Vec<(usize, usize)> = Vec::new();
    let mut start: usize = 0;
    let mut i: usize = 0;
    assert(v@.take(0) == Seq::<char>::empty());
    assert(pieces(v@, rs@) == Seq::<Seq<char>>::empty());
    assert(v@.subrange(0, 0) == Seq::<char>::empty());
    while i < v.len()
        invariant
            start <= i <= v.len(),
            forall|k: int| 0 <= k < rs@.len() ==> #[trigger] rs@[k].0 <= rs@[k].1 <= v@.len(),
            split_by(v@.take(i as int), sep) == pieces(v@, rs@).push(
                v@.subrange(start as int, i as int),
            ),
        decreases v.len() - i,
    {
        let ghost t = v@.take(i + 1);
        assert(t.drop_last() == v@.take(i as int));
        let ghost prev = pieces(v@, rs@);
        if v[i] == sep {
            rs.push((start, i));
            assert(pieces(v@, rs@) == prev.push(v@.subrange(start as int, i as int)));
            start = i + 1;
            assert(v@.subrange(start as int, i + 1) == Seq::<char>::empty());
        } else {
            assert(v@.subrange(start as int, i + 1) == v@.subrange(start as int, i as int).push(
                v@[i as int],
            ));
        }
        i += 1;
    }
    assert(v@.take(v@.len() as int) == v@);
    let ghost prev = pieces(v@, rs@);
    rs.push((start, v.len()));
    assert(pieces(v@, rs@) == prev.push(v@.subrange(start as int, v@.len() as int)));
    rs
}

/// Once a digit scan has failed on a prefix it fails the same way on
/// every extension.
pub proof fn lemma_scan_up_err(d: Seq<char>, k: int, max: int)
    requires
        0 <= k <= d.len(),
        scan_up(d.take(k), max) is Err,
    ensures
        scan_up(d, max) == scan_up(d.take(k), max),
    decreases d.len(),
{
    if d.len() > k {
        assert(d.drop_last().take(k) == d.take(k));
        lemma_scan_up_err(d.drop_last(), k, max);
    } else {
        assert(d.take(k) == d);
    }
}

/// Once a negative digit scan has failed on a prefix it fails the same way
/// on every extension.
pub proof fn lemma_scan_down_err(d: Seq<char>, k: int, min: int)
    requires
        0 <= k <= d.len(),
        scan_down(d.take(k), min) is Err,
    ensures
        scan_down(d, min) == scan_down(d.take(k), min),
    decreases d.len(),
{
    if d.len() > k {
        assert(d.drop_last().take(k) == d.take(k));
        lemma_scan_down_err(d.drop_last(), k, min);
    } else {
        assert(d.take(k) == d);
    }
}

/// `c` is an ASCII digit.
pub fn is_ascii_digit(c: char) -> (b: bool)
    ensures
        b == is_digit(c),
{
    '0' <= c && c <= '9'
}

/// Parses `s` as a decimal integer of range `min..=max`, as `str::parse`
/// does for the integer type with that range.
pub fn parse_integer(s: &Vec<char>, min: i128, max: i128) -> (r: Result<i128, IntError>)
    requires
        i64::MIN <= min <= 0 <= max <= u64::MAX,
    ensures
        match r {
            Ok(v) => parse_int(s@, min as int, max as int) == Ok::<int, IntError>(v as int) && min
                <= v <= max,
            Err(e) => parse_int(s@, min as int, max as int) == Err::<int, IntError>(e),
        },
{
    let n = s.len();
    if n == 0 {
        return Err(IntError::Empty);
    }
    if n == 1 && (s[0] == '+' || s[0] == '-') {
        return Err(IntError::InvalidDigit);
    }
    let negative = s[0] == '-' && min < 0;
    let start: usize = if s[0] == '+' || negative { 1 } else { 0 };
    let ghost d = s@.subrange(start as int, n as int);
    assert(start == 1 ==> d == s@.drop_first());
    assert(start == 0 ==> d == s@);
    let mut acc: i128 = 0;
    let mut j: usize = start;
    while j < n
        invariant
            start <= j <= n == s@.len(),
            d == s@.subrange(start as int, n as int),
            start == 1 ==> d == s@.drop_first(),
            start == 0 ==> d == s@,
            n >= 1,
            !(n == 1 && (s@[0] == '+' || s@[0] == '-')),
            negative == (s@[0] == '-' && min < 0),
            start == (if s@[0] == '+' || negative { 1usize } else { 0usize }),
            i64::MIN <= min <= 0 <= max <= u64::MAX,
            !negative ==> scan_up(d.take(j - start), max as int) == Ok::<int, IntError>(acc as int),
            negative ==> scan_down(d.take(j - start), min as int) == Ok::<int, IntError>(
                acc as int,
            ),
            min <= acc <= max,
            !negative ==> acc >= 0,
            negative ==> acc <= 0,
        decreases n - j,
    {
        let c = s[j];
        let ghost k = j - start;
        assert(d.take(k + 1).drop_last() == d.take(k));
        assert(d.take(k + 1).last() == c);
        if !is_ascii_digit(c) {
            proof {
                if negative {
                    lemma_scan_down_err(d, k + 1, min as int);
                } else {
                    lemma_scan_up_err(d, k + 1, max as int);
                }
            }
            assert(negative ==> scan_down(d, min as int) == Err::<int, IntError>(IntError::InvalidDigit));
            assert(!negative ==> scan_up(d, max as int) == Err::<int, IntError>(IntError::InvalidDigit));
            return Err(IntError::InvalidDigit);
        }
        let dv = (c as u32 - '0' as u32) as i128;
        assert(dv == digit_value(c));
        if negative {
            let next = acc * 10 - dv;
            if next < min {
                proof {
                    lemma_scan_down_err(d, k + 1, min as int);
                }
                return Err(IntError::NegOverflow);
            }
            acc = next;
        } else {
            let next = acc * 10 + dv;
            if next > max {
                proof {
                    lemma_scan_up_err(d, k + 1, max as int);
                }
                return Err(IntError::PosOverflow);
            }
            acc = next;
        }
        j += 1;
    }
    assert(d.take(n - start) == d);
    Ok(acc)
}

/// Appends the decimal digits of `n`.
pub fn push_decimal(s: &mut String, n: u64)
    ensures
        final(s)@ == old(s)@ + decimal(n as nat),
    decreases n,
{
    if n >= 10 {
        push_decimal(s, n / 10);
    }
    let d = (n % 10) as u8;
    let c = (d + 48u8) as char;
    assert(c == digit_char((n % 10) as nat));
    push_char(s, c);
    proof {
        if n >= 10 {
            assert(decimal(n as nat) == decimal((n / 10) as nat).push(c));
        } else {
            assert(decimal(n as nat) == seq![c]);
        }
    }
}

/// Appends `n` in decimal, with a leading `-` when negative.
pub fn push_signed_decimal(s: &mut String, n: i64)
    ensures
        final(s)@ == old(s)@ + signed_decimal(n as int),
{
    if n < 0 {
        push_char(s, '-');
        let m = (0i128 - n as i128) as u64;
        push_decimal(s, m);
        assert(seq!['-'] + decimal(m as nat) == signed_decimal(n as int));
    } else {
        push_decimal(s, n as u64);
    }
}


/// ASCII lower case of a character (other characters unchanged).
pub open spec fn ascii_lower(c: char) -> char {
    if 'A' <= c <= 'Z' {
        ((c as int) + 32) as char
    } else {
        c
    }
}

/// `a` and `b` are equal up to ASCII case (`str::eq_ignore_ascii_case`).
pub open spec fn eq_ignore_ascii_case(a: Seq<char>, b: Seq<char>) -> bool {
    a.len() == b.len() && forall|i: int| 0 <= i < a.len() ==> ascii_lower(#[trigger] a[i]) == ascii_lower(b[i])
}

/// `char::to_ascii_lowercase`.
pub fn lower_ascii(c: char) -> (l: char)
    ensures
        l == ascii_lower(c),
{
    if 'A' <= c && c <= 'Z' {
        ((c as u8) + 32) as char
    } else {
        c
    }
}

/// Whether `v[lo..hi]` equals the text `t` up to ASCII case.
pub fn range_eq_ignore_case(v: &Vec<char>, lo: usize, hi: usize, t: &str) -> (b: bool)
    requires
        lo <= hi <= v.len(),
    ensures
        b == eq_ignore_ascii_case(v@.subrange(lo as int, hi as int), t@),
{
    let w = chars_of(t);
    if hi - lo != w.len() {
        return false;
    }
    let mut i: usize = 0;
    while i < w.len()
        invariant
            lo <= hi <= v.len(),
            hi - lo == w@.len(),
            w@ == t@,
            i <= w@.len(),
            forall|j: int| 0 <= j < i ==> ascii_lower(#[trigger] v@[lo + j]) == ascii_lower(w@[j]),
        decreases w@.len() - i,
    {
        if lower_ascii(v[lo + i]) != lower_ascii(w[i]) {
            assert(v@.subrange(lo as int, hi as int)[i as int] == v@[lo + i]);
            return false;
        }
        i += 1;
    }
    assert forall|j: int| 0 <= j < hi - lo implies ascii_lower(
        #[trigger] v@.subrange(lo as int, hi as int)[j],
    ) == ascii_lower(t@[j]) by {
        assert(v@.subrange(lo as int, hi as int)[j] == v@[lo + j]);
    }
    true
}

/// Whether `v[lo..hi]` is exactly the text `t`.
pub fn range_equals(v: &Vec<char>, lo: usize, hi: usize, t: &str) -> (b: bool)
    requires
        lo <= hi <= v.len(),
    ensures
        b == (v@.subrange(lo as int, hi as int) == t@),
{
    let w = chars_of(t);
    if hi - lo != w.len() {
        return false;
    }
    let mut i: usize = 0;
    while i < w.len()
        invariant
            lo <= hi <= v.len(),
            hi - lo == w@.len(),
            w@ == t@,
            i <= w@.len(),
            forall|j: int| 0 <= j < i ==> v@[lo + j] == w@[j],
        decreases w@.len() - i,
    {
        if v[lo + i] != w[i] {
            assert(v@.subrange(lo as int, hi as int)[i as int] != t@[i as int]);
            return false;
        }
        i += 1;
    }
    assert(v@.subrange(lo as int, hi as int) == t@);
    true
}

/// Whether `v[lo..hi]` begins with the text `t`.
pub fn range_starts_with(v: &Vec<char>, lo: usize, hi: usize, t: &str) -> (b: bool)
    requires
        lo <= hi <= v.len(),
    ensures
        b == (v@.subrange(lo as int, hi as int).len() >= t@.len() && v@.subrange(
            lo as int,
            hi as int,
        ).take(t@.len() as int) == t@),
{
    let w = chars_of(t);
    if hi - lo < w.len() {
        return false;
    }
    let r = range_equals(v, lo, lo + w.len(), t);
    assert(v@.subrange(lo as int, hi as int).take(t@.len() as int) == v@.subrange(
        lo as int,
        lo + w@.len(),
    ));
    r
}

} // verus!
