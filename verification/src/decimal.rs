//! Decimal number literals as `f64::from_str` reads them, and the whole
//! number that `round()` followed by a cast to `u64` makes of the binary64
//! number nearest to them (ties to even), computed in integers.
use vstd::arithmetic::power::pow;
use vstd::prelude::*;

use crate::text::{
    digit_value, eq_ignore_ascii_case, is_ascii_digit, is_digit, range_eq_ignore_case,
};

verus! {

// ---------------------------------------------------------------------------
// Specification
// ---------------------------------------------------------------------------

/// Where the first `.` of `s` stands, or `s.len()` if there is none.
pub open spec fn dot_position(s: Seq<char>) -> nat
    decreases s.len(),
{
    if s.len() == 0 || s[0] == '.' {
        0
    } else {
        1 + dot_position(s.drop_first())
    }
}

/// Where the first exponent marker (`e` or `E`) of `s` stands, or
/// `s.len()` if there is none.
pub open spec fn exp_position(s: Seq<char>) -> nat
    decreases s.len(),
{
    if s.len() == 0 || s[0] == 'e' || s[0] == 'E' {
        0
    } else {
        1 + exp_position(s.drop_first())
    }
}

/// Every character of `s` is an ASCII digit.
pub open spec fn all_digits(s: Seq<char>) -> bool {
    forall|i: int| 0 <= i < s.len() ==> is_digit(#[trigger] s[i])
}

/// The value of a string of decimal digits.
pub open spec fn digits_value(s: Seq<char>) -> nat
    decreases s.len(),
{
    if s.len() == 0 {
        0
    } else {
        (digits_value(s.drop_last()) * 10 + digit_value(s.last())) as nat
    }
}

/// The largest value of a `u64`.
pub open spec fn u64_max() -> int {
    0xffff_ffff_ffff_ffff
}

/// `v`, or `cap` when `v` is larger.
pub open spec fn capped(v: int, cap: int) -> int {
    if v > cap {
        cap
    } else {
        v
    }
}

/// `s` without one leading `+` or `-`.
pub open spec fn unsigned_part(s: Seq<char>) -> Seq<char> {
    if s.len() > 0 && (s[0] == '+' || s[0] == '-') {
        s.drop_first()
    } else {
        s
    }
}

/// The mantissa of an unsigned literal: the text before its exponent marker.
pub open spec fn mantissa(b: Seq<char>) -> Seq<char> {
    b.take(exp_position(b) as int)
}

/// An unsigned literal has an exponent marker.
pub open spec fn has_exponent(b: Seq<char>) -> bool {
    exp_position(b) < b.len()
}

/// The text after the exponent marker of an unsigned literal.
pub open spec fn exponent_text(b: Seq<char>) -> Seq<char> {
    b.skip(exp_position(b) + 1int)
}

/// The characters of a mantissa before its point.
pub open spec fn whole_digits(m: Seq<char>) -> Seq<char> {
    m.take(dot_position(m) as int)
}

/// The characters of a mantissa after its point (none without a point).
pub open spec fn fraction_digits(m: Seq<char>) -> Seq<char> {
    let p = dot_position(m) as int;
    if p < m.len() {
        m.skip(p + 1)
    } else {
        Seq::<char>::empty()
    }
}

/// `inf`, `infinity` or `nan`, in any ASCII case.
pub open spec fn is_special_float(b: Seq<char>) -> bool {
    ||| eq_ignore_ascii_case(b, "inf"@)
    ||| eq_ignore_ascii_case(b, "infinity"@)
    ||| eq_ignore_ascii_case(b, "nan"@)
}

/// An exponent: an optional sign and at least one digit.
pub open spec fn is_exponent(t: Seq<char>) -> bool {
    unsigned_part(t).len() > 0 && all_digits(unsigned_part(t))
}

/// The value of an exponent.
pub open spec fn exponent_value(t: Seq<char>) -> int {
    if t.len() > 0 && t[0] == '-' {
        -(digits_value(unsigned_part(t)) as int)
    } else {
        digits_value(unsigned_part(t)) as int
    }
}

/// A finite unsigned literal: digits with at most one point and at least
/// one digit, then optionally `e` or `E` and an exponent.
pub open spec fn is_finite_float(b: Seq<char>) -> bool {
    let m = mantissa(b);
    &&& all_digits(whole_digits(m))
    &&& all_digits(fraction_digits(m))
    &&& whole_digits(m).len() + fraction_digits(m).len() > 0
    &&& has_exponent(b) ==> is_exponent(exponent_text(b))
}

/// Text that `f64::from_str` accepts: an optional sign, then a finite
/// literal or `inf`, `infinity` or `nan` in any ASCII case.
pub open spec fn is_float_text(s: Seq<char>) -> bool {
    is_special_float(unsigned_part(s)) || is_finite_float(unsigned_part(s))
}

/// All the digits of a finite unsigned literal's mantissa, point removed.
pub open spec fn digit_string(b: Seq<char>) -> Seq<char> {
    whole_digits(mantissa(b)) + fraction_digits(mantissa(b))
}

/// How many of the literal's digits stand before the point once the
/// exponent has moved it.
pub open spec fn point_shift(b: Seq<char>) -> int {
    whole_digits(mantissa(b)).len() + if has_exponent(b) {
        exponent_value(exponent_text(b))
    } else {
        0
    }
}

/// The whole part of the number written with the digits `d` and the point
/// after the first `p` of them (zeros past the end of `d`).
pub open spec fn whole_part(d: Seq<char>, p: int) -> int {
    if p <= 0 {
        0
    } else if p <= d.len() {
        digits_value(d.take(p)) as int
    } else {
        digits_value(d) * pow(10, (p - d.len()) as nat)
    }
}

/// 2^55: fractions are compared with thresholds `c / 2^55`.
pub open spec fn two_55() -> int {
    0x80_0000_0000_0000
}

/// 2^64.
pub open spec fn two_64() -> int {
    0x1_0000_0000_0000_0000
}

/// The digits after the point of the number written with the digits `d`
/// and the point after the first `p` of them (leading zeros included when
/// the point stands before the digits).
pub open spec fn fraction_digits_at(d: Seq<char>, p: int) -> Seq<char> {
    if p < 0 {
        Seq::new((-p) as nat, |i: int| '0') + d
    } else if p < d.len() {
        d.skip(p)
    } else {
        Seq::<char>::empty()
    }
}

/// A fraction `num / den` compared with `c / 2^55`: positive, zero or
/// negative as the fraction is above, at or below it.
pub open spec fn frac_excess(num: int, den: int, c: int) -> int {
    num * two_55() - c * den
}

/// The number of binary digits of `n`.
pub open spec fn bit_length(n: nat) -> nat
    decreases n,
{
    if n == 0 {
        0
    } else {
        1 + bit_length(n / 2)
    }
}

/// What `round()` and a cast to `u64` make of the binary64 number nearest
/// (ties to even) to the number written with the digits `d` and the point
/// after the first `p` of them. With `i` its whole part and `f` its
/// fraction, and `k` the binary exponent of `i`:
/// - from 2^64 up, the binary64 value is at least 2^64: `u64::MAX`;
/// - from 2^53 up, binary64 numbers are the multiples of `u = 2^(k-52)`:
///   the nearest one, ties to the even multiple, held at `u64::MAX`;
/// - from 2^52 up, they are the integers: `i` or `i + 1`, nearest, ties to
///   even;
/// - from 2^51 up, they are the halves, and `i + 1/2` rounds up: `i + 1`
///   when `f > 1/4` (at `f = 1/4` the tie goes to the even `i`);
/// - from 1 up, `i + 1/2` is a binary64 number with an even last digit and
///   spacing `2^(k-52)` below it: `i + 1` when `f >= 1/2 - 2^(k-53)`;
/// - below 1, `1/2` is a power of two with spacing `2^-54` below it: 1
///   when `f >= 1/2 - 2^-55`, else 0.
pub open spec fn f64_rounded_at(d: Seq<char>, p: int) -> int {
    let f = fraction_digits_at(d, p);
    binary64_round(whole_part(d, p), digits_value(f) as int, pow(10, f.len()))
}

/// The same for the number with whole part `i` and fraction `num / den`.
pub open spec fn binary64_round(i: int, num: int, den: int) -> int {
    if i >= two_64() {
        u64_max()
    } else if i >= 0x20_0000_0000_0000 {
        let u = pow(2, (bit_length(i as nat) - 53) as nat);
        let q = i / u;
        let r = i % u;
        let up = r > u / 2 || (r == u / 2 && (frac_excess(num, den, 0) > 0 || q % 2 == 1));
        capped((q + if up { 1int } else { 0int }) * u, u64_max())
    } else if i >= 0x10_0000_0000_0000 {
        let half = frac_excess(num, den, 0x40_0000_0000_0000);
        i + if half > 0 || (half == 0 && i % 2 == 1) { 1int } else { 0int }
    } else if i >= 0x8_0000_0000_0000 {
        i + if frac_excess(num, den, 0x20_0000_0000_0000) > 0 { 1int } else { 0int }
    } else if i >= 1 {
        i + if frac_excess(num, den, 0x40_0000_0000_0000 - pow(2, bit_length(i as nat) + 1)) >= 0 {
            1int
        } else {
            0int
        }
    } else if frac_excess(num, den, 0x40_0000_0000_0000 - 1) >= 0 {
        1
    } else {
        0
    }
}

/// What `s.parse::<f64>()`, `round()` and a cast to `u64` give for a
/// literal: negative numbers and NaN give 0, infinity gives `u64::MAX`,
/// and other numbers are read as the nearest binary64 number (ties to
/// even), rounded half away from zero and held at `u64::MAX`.
pub open spec fn rounded_u64(s: Seq<char>) -> int {
    let b = unsigned_part(s);
    if s.len() > 0 && s[0] == '-' {
        0
    } else if is_special_float(b) {
        if eq_ignore_ascii_case(b, "nan"@) {
            0
        } else {
            u64_max()
        }
    } else {
        f64_rounded_at(digit_string(b), point_shift(b))
    }
}

// ---------------------------------------------------------------------------
// Lemmas
// ---------------------------------------------------------------------------

proof fn lemma_dot_position_unique(s: Seq<char>, p: int)
    requires
        0 <= p <= s.len(),
        p < s.len() ==> s[p] == '.',
        forall|i: int| 0 <= i < p ==> s[i] != '.',
    ensures
        dot_position(s) == p,
    decreases s.len(),
{
    if s.len() > 0 && s[0] != '.' {
        assert forall|i: int| 0 <= i < p - 1 implies s.drop_first()[i] != '.' by {
            assert(s.drop_first()[i] == s[i + 1]);
        }
        lemma_dot_position_unique(s.drop_first(), p - 1);
    }
}

proof fn lemma_exp_position_unique(s: Seq<char>, p: int)
    requires
        0 <= p <= s.len(),
        p < s.len() ==> (s[p] == 'e' || s[p] == 'E'),
        forall|i: int| 0 <= i < p ==> s[i] != 'e' && s[i] != 'E',
    ensures
        exp_position(s) == p,
    decreases s.len(),
{
    if s.len() > 0 && s[0] != 'e' && s[0] != 'E' {
        assert forall|i: int| 0 <= i < p - 1 implies s.drop_first()[i] != 'e' && s.drop_first()[i]
            != 'E' by {
            assert(s.drop_first()[i] == s[i + 1]);
        }
        lemma_exp_position_unique(s.drop_first(), p - 1);
    }
}

/// Ten to the twentieth power is past 2^64.
proof fn lemma_pow10_past_u64(k: nat)
    requires
        k >= 20,
    ensures
        pow(10, k) > two_64(),
{
    assert(pow(10, 20) == 100_000_000_000_000_000_000int) by {
        reveal_with_fuel(pow, 21);
    }
    vstd::arithmetic::power::lemma_pow_increases(10, 20, k);
}

/// One more power of a base.
proof fn lemma_pow_next(b: int, n: nat)
    ensures
        pow(b, n + 1) == b * pow(b, n),
{
    reveal(pow);
}

/// A digit in front of a digit string adds its value times the string's
/// power of ten.
proof fn lemma_digits_prepend(c: char, s: Seq<char>)
    requires
        is_digit(c),
        all_digits(s),
    ensures
        digits_value(seq![c] + s) == digit_value(c) * pow(10, s.len()) + digits_value(s),
    decreases s.len(),
{
    let t = seq![c] + s;
    if s.len() == 0 {
        assert(t.drop_last() =~= Seq::<char>::empty());
        assert(t.last() == c);
        assert(pow(10, 0) == 1) by {
            reveal(pow);
        }
        assert(digits_value(t) == digits_value(t.drop_last()) * 10 + digit_value(c));
    } else {
        let n = s.len();
        assert(t.drop_last() =~= seq![c] + s.drop_last());
        assert(t.last() == s.last());
        assert(all_digits(s.drop_last())) by {
            assert forall|i: int| 0 <= i < s.drop_last().len() implies is_digit(
                #[trigger] s.drop_last()[i],
            ) by {
                assert(s.drop_last()[i] == s[i]);
            }
        }
        lemma_digits_prepend(c, s.drop_last());
        lemma_pow_next(10, (n - 1) as nat);
        let dc = digit_value(c);
        let p = pow(10, (n - 1) as nat);
        let dl = digits_value(s.drop_last()) as int;
        let e = digit_value(s.last());
        assert(is_digit(s.last()));
        assert(0 <= e <= 9);
        assert(0 <= dc <= 9);
        assert(digits_value(t.drop_last()) == dc * p + dl);
        assert(digits_value(t) == digits_value(t.drop_last()) * 10 + e);
        assert(digits_value(s) == dl * 10 + e);
        assert(pow(10, n) == 10 * p);
        assert((dc * p + dl) * 10 + e == dc * (10 * p) + (dl * 10 + e)) by (nonlinear_arith);
    }
}

/// A digit string is worth less than its power of ten.
proof fn lemma_digits_bound(s: Seq<char>)
    requires
        all_digits(s),
    ensures
        digits_value(s) < pow(10, s.len()),
    decreases s.len(),
{
    if s.len() == 0 {
        assert(pow(10, 0) == 1) by {
            reveal(pow);
        }
    } else {
        assert(all_digits(s.drop_last())) by {
            assert forall|i: int| 0 <= i < s.drop_last().len() implies is_digit(
                #[trigger] s.drop_last()[i],
            ) by {
                assert(s.drop_last()[i] == s[i]);
            }
        }
        lemma_digits_bound(s.drop_last());
        lemma_pow_next(10, (s.len() - 1) as nat);
        assert(is_digit(s.last()));
    }
}

/// Leading zeros do not change the value of a digit string.
proof fn lemma_leading_zeros(n: nat, s: Seq<char>)
    requires
        all_digits(s),
    ensures
        digits_value(Seq::new(n, |i: int| '0') + s) == digits_value(s),
        all_digits(Seq::new(n, |i: int| '0') + s),
    decreases n,
{
    let z = Seq::new(n, |i: int| '0');
    assert forall|i: int| 0 <= i < (z + s).len() implies is_digit(#[trigger] (z + s)[i]) by {
        if i >= n {
            assert((z + s)[i] == s[i - n]);
        }
    }
    if n > 0 {
        let z1 = Seq::new((n - 1) as nat, |i: int| '0');
        lemma_leading_zeros((n - 1) as nat, s);
        assert(z + s =~= seq!['0'] + (z1 + s));
        lemma_digits_prepend('0', z1 + s);
    }
}

/// Comparing `g * den + low` (with `low < den`) against `c * den` comes
/// down to comparing `g` with `c`, and `low` breaks a tie.
proof fn lemma_scaled_compare(n: int, den: int, g: int, low: int, c: int)
    requires
        den > 0,
        0 <= low < den,
        n == g * den + low,
    ensures
        (n - c * den >= 0) == (g >= c),
        (n - c * den > 0) == (g > c || (g == c && low > 0)),
        (n - c * den == 0) == (g == c && low == 0),
{
    assert(n - c * den == (g - c) * den + low) by (nonlinear_arith)
        requires
            n == g * den + low,
    ;
    if g > c {
        assert((g - c) * den >= den) by (nonlinear_arith)
            requires
                g > c,
                den > 0,
        ;
    } else if g < c {
        assert((g - c) * den <= -den) by (nonlinear_arith)
            requires
                g < c,
                den > 0,
        ;
    }
}

/// With the point before the digits, the fraction is below 1/10, and the
/// binary64 number nearest to it is below 1/2.
proof fn lemma_point_before_digits(d: Seq<char>, p: int)
    requires
        all_digits(d),
        p < 0,
    ensures
        f64_rounded_at(d, p) == 0,
{
    let n = (-p) as nat;
    let f = fraction_digits_at(d, p);
    lemma_leading_zeros(n, d);
    lemma_digits_bound(d);
    vstd::arithmetic::power::lemma_pow_adds(10, d.len(), n);
    vstd::arithmetic::power::lemma_pow_increases(10, 1, n);
    assert(pow(10, 1) == 10) by {
        reveal_with_fuel(pow, 2);
    }
    let a = pow(10, d.len());
    let b = pow(10, n);
    let v = digits_value(d) as int;
    assert(f.len() == d.len() + n);
    assert(v * two_55() < (0x40_0000_0000_0000 - 1) * (a * b)) by (nonlinear_arith)
        requires
            0 <= v < a,
            b >= 10,
            two_55() == 0x80_0000_0000_0000,
    ;
}

/// With the point far to the right of the digits, the result is 0 for no
/// nonzero digit and `u64::MAX` otherwise.
proof fn lemma_far_right(d: Seq<char>, p: int)
    requires
        p >= d.len() + 20,
    ensures
        f64_rounded_at(d, p) == if digits_value(d) == 0 {
            0
        } else {
            u64_max()
        },
{
    let k = (p - d.len()) as nat;
    lemma_pow10_past_u64(k);
    if digits_value(d) > 0 {
        vstd::arithmetic::mul::lemma_mul_increases(digits_value(d) as int, pow(10, k));
    } else {
        assert(pow(10, 0) == 1) by {
            reveal(pow);
        }
        assert(fraction_digits_at(d, p) =~= Seq::<char>::empty());
    }
}

/// The result depends on an exponent only up to a bound far past the
/// digits: beyond it, the result is the same as at the bound.
proof fn lemma_exponent_bound(d: Seq<char>, w: int, x: int, bound: int)
    requires
        all_digits(d),
        0 <= w <= d.len(),
        d.len() + 20 <= bound,
        x >= bound,
    ensures
        f64_rounded_at(d, w + x) == f64_rounded_at(d, w + bound),
        f64_rounded_at(d, w - x) == f64_rounded_at(d, w - bound),
{
    lemma_far_right(d, w + x);
    lemma_far_right(d, w + bound);
    lemma_point_before_digits(d, w - x);
    lemma_point_before_digits(d, w - bound);
}

/// Bounds on the number of binary digits.
proof fn lemma_bit_length_below(n: nat, m: nat)
    requires
        n < pow(2, m),
    ensures
        bit_length(n) <= m,
    decreases m,
{
    reveal(pow);
    if n > 0 {
        if m == 0 {
            assert(pow(2, 0) == 1);
        } else {
            lemma_bit_length_below(n / 2, (m - 1) as nat);
        }
    }
}

proof fn lemma_bit_length_above(n: nat, m: nat)
    requires
        n >= pow(2, m),
    ensures
        bit_length(n) >= m + 1,
    decreases m,
{
    reveal(pow);
    vstd::arithmetic::power::lemma_pow_positive(2, m);
    if m > 0 {
        lemma_bit_length_above(n / 2, (m - 1) as nat);
    }
}

// ---------------------------------------------------------------------------
// Implementation
// ---------------------------------------------------------------------------

/// Index of the first `.` of `v[lo..hi]` (or `hi`).
fn find_point(v: &Vec<char>, lo: usize, hi: usize) -> (r: usize)
    requires
        lo <= hi <= v.len(),
    ensures
        lo <= r <= hi,
        r - lo == dot_position(v@.subrange(lo as int, hi as int)),
{
    let mut i = lo;
    while i < hi && v[i] != '.'
        invariant
            lo <= i <= hi <= v.len(),
            forall|j: int| lo <= j < i ==> v@[j] != '.',
        decreases hi - i,
    {
        i += 1;
    }
    proof {
        let s = v@.subrange(lo as int, hi as int);
        assert forall|j: int| 0 <= j < i - lo implies s[j] != '.' by {
            assert(s[j] == v@[lo + j]);
        }
        lemma_dot_position_unique(s, i - lo);
    }
    i
}

/// Index of the first `e` or `E` of `v[lo..hi]` (or `hi`).
fn find_exponent_marker(v: &Vec<char>, lo: usize, hi: usize) -> (r: usize)
    requires
        lo <= hi <= v.len(),
    ensures
        lo <= r <= hi,
        r - lo == exp_position(v@.subrange(lo as int, hi as int)),
{
    let mut i = lo;
    while i < hi && v[i] != 'e' && v[i] != 'E'
        invariant
            lo <= i <= hi <= v.len(),
            forall|j: int| lo <= j < i ==> v@[j] != 'e' && v@[j] != 'E',
        decreases hi - i,
    {
        i += 1;
    }
    proof {
        let s = v@.subrange(lo as int, hi as int);
        assert forall|j: int| 0 <= j < i - lo implies s[j] != 'e' && s[j] != 'E' by {
            assert(s[j] == v@[lo + j]);
        }
        lemma_exp_position_unique(s, i - lo);
    }
    i
}

/// Whether every character of `v[lo..hi]` is an ASCII digit.
fn all_digits_in(v: &Vec<char>, lo: usize, hi: usize) -> (b: bool)
    requires
        lo <= hi <= v.len(),
    ensures
        b == all_digits(v@.subrange(lo as int, hi as int)),
{
    let mut i = lo;
    while i < hi
        invariant
            lo <= i <= hi <= v.len(),
            forall|j: int| lo <= j < i ==> is_digit(#[trigger] v@[j]),
        decreases hi - i,
    {
        if !is_ascii_digit(v[i]) {
            assert(v@.subrange(lo as int, hi as int)[i - lo] == v@[i as int]);
            return false;
        }
        i += 1;
    }
    assert forall|j: int| 0 <= j < hi - lo implies is_digit(
        #[trigger] v@.subrange(lo as int, hi as int)[j],
    ) by {
        assert(v@.subrange(lo as int, hi as int)[j] == v@[lo + j]);
    }
    true
}

/// The value of the digits `v[lo..hi]`, held at `cap` once it passes it.
fn capped_digits(v: &Vec<char>, lo: usize, hi: usize, cap: u128) -> (r: u128)
    requires
        lo <= hi <= v.len(),
        all_digits(v@.subrange(lo as int, hi as int)),
        cap <= 0x1_0000_0000_0000_0000_0000_0000_0000,
    ensures
        r as int == capped(digits_value(v@.subrange(lo as int, hi as int)) as int, cap as int),
{
    let ghost s = v@.subrange(lo as int, hi as int);
    let mut acc: u128 = 0;
    let mut j = lo;
    while j < hi
        invariant
            lo <= j <= hi <= v.len(),
            s == v@.subrange(lo as int, hi as int),
            all_digits(s),
            cap <= 0x1_0000_0000_0000_0000_0000_0000_0000,
            acc as int == capped(digits_value(s.take(j - lo)) as int, cap as int),
        decreases hi - j,
    {
        let ghost k = j - lo;
        assert(s[k] == v@[j as int]);
        assert(is_digit(s[k]));
        assert(s.take(k + 1).drop_last() == s.take(k));
        assert(s.take(k + 1).last() == s[k]);
        let d = (v[j] as u32 - '0' as u32) as u128;
        assert(d == digit_value(s[k]));
        let next = acc * 10 + d;
        acc = if next > cap {
            cap
        } else {
            next
        };
        j += 1;
    }
    assert(s.take(hi - lo) == s);
    acc
}

/// The whole part of the number written with the digits `d` and the point
/// after the first `p` of them, held at 2^64.
fn whole_capped(d: &Vec<char>, p: i128) -> (r: u128)
    requires
        all_digits(d@),
    ensures
        r as int == capped(whole_part(d@, p as int), two_64()),
{
    let len = d.len();
    let cap: u128 = 0x1_0000_0000_0000_0000;
    let mut acc: u128 = 0;
    if p > 0 {
        let t: usize = if p < len as i128 {
            p as usize
        } else {
            len
        };
        assert(all_digits(d@.subrange(0, t as int))) by {
            assert forall|i: int| 0 <= i < t implies is_digit(#[trigger] d@.subrange(0, t as int)[i]) by {
                assert(d@.subrange(0, t as int)[i] == d@[i]);
            }
        }
        acc = capped_digits(d, 0, t, cap);
        assert(d@.subrange(0, t as int) == d@.take(t as int));
        if p > len as i128 {
            assert(d@.take(len as int) == d@);
            let k: i128 = p - len as i128;
            if acc != 0 {
                if k >= 20 {
                    proof {
                        lemma_pow10_past_u64(k as nat);
                        vstd::arithmetic::mul::lemma_mul_increases(
                            digits_value(d@) as int,
                            pow(10, k as nat),
                        );
                    }
                    acc = cap;
                } else {
                    assert(pow(10, 0) == 1) by {
                        reveal(pow);
                    }
                    let mut i: i128 = 0;
                    while i < k
                        invariant
                            0 <= i <= k < 20,
                            k == p - d@.len(),
                            cap == two_64(),
                            acc as int == capped(digits_value(d@) * pow(10, i as nat), two_64()),
                        decreases k - i,
                    {
                        proof {
                            assert(pow(10, (i + 1) as nat) == pow(10, i as nat) * 10) by {
                                reveal(pow);
                            }
                            vstd::arithmetic::mul::lemma_mul_is_associative(
                                digits_value(d@) as int,
                                pow(10, i as nat),
                                10,
                            );
                            vstd::arithmetic::power::lemma_pow_positive(10, i as nat);
                            vstd::arithmetic::mul::lemma_mul_nonnegative(
                                digits_value(d@) as int,
                                pow(10, i as nat),
                            );
                        }
                        let next = acc * 10;
                        acc = if next > cap {
                            cap
                        } else {
                            next
                        };
                        i += 1;
                    }
                }
            } else {
                assert(digits_value(d@) == 0);
                assert(0 * pow(10, k as nat) == 0);
            }
        }
    }
    acc
}

/// For the fraction `f` whose digits are `d[p..]`: `g = floor(f * 2^55)`
/// and whether `f * 2^55` is not a whole number.
fn fraction_bits(d: &Vec<char>, p: usize) -> (r: (u128, bool))
    requires
        p <= d.len(),
        all_digits(d@),
    ensures
        ({
            let n = digits_value(d@.subrange(p as int, d@.len() as int)) * two_55();
            let den = pow(10, (d@.len() - p) as nat);
            r.0 == n / den && r.1 == (n % den != 0)
        }),
{
    let len = d.len();
    let scale: u128 = 0x80_0000_0000_0000;
    let mut carry: u128 = 0;
    let mut nonzero = false;
    let ghost mut low: int = 0;
    let mut i = len;
    assert(pow(10, 0) == 1) by {
        reveal(pow);
    }
    assert(d@.subrange(len as int, len as int) =~= Seq::<char>::empty());
    while i > p
        invariant
            p <= i <= len == d@.len(),
            all_digits(d@),
            scale == two_55(),
            digits_value(d@.subrange(i as int, len as int)) * two_55() == carry * pow(
                10,
                (len - i) as nat,
            ) + low,
            0 <= low < pow(10, (len - i) as nat),
            nonzero == (low != 0),
            carry < scale,
        decreases i,
    {
        i -= 1;
        assert(is_digit(d@[i as int]));
        let dig = (d[i] as u32 - '0' as u32) as u128;
        let t = dig * scale + carry;
        let rem = t % 10;
        let ghost old_carry = carry;
        carry = t / 10;
        proof {
            let s = d@.subrange(i + 1, len as int);
            let m = (len - i - 1) as nat;
            assert(all_digits(s)) by {
                assert forall|j: int| 0 <= j < s.len() implies is_digit(#[trigger] s[j]) by {
                    assert(s[j] == d@[i + 1 + j]);
                }
            }
            assert(d@.subrange(i as int, len as int) =~= seq![d@[i as int]] + s);
            lemma_digits_prepend(d@[i as int], s);
            lemma_pow_next(10, m);
            vstd::arithmetic::power::lemma_pow_positive(10, m);
            let big = pow(10, m);
            let dv = digits_value(s) as int;
            assert((dig * big + dv) * two_55() == carry * (10 * big) + (rem * big + low)
                && rem * big + low < 10 * big && 0 <= rem * big + low && ((rem * big + low != 0)
                == (rem != 0 || low != 0))) by (nonlinear_arith)
                requires
                    dv * two_55() == old_carry * big + low,
                    t == dig * two_55() + old_carry,
                    t == 10 * carry + rem,
                    0 <= rem < 10,
                    0 <= low < big,
            ;
            low = rem * big + low;
        }
        nonzero = nonzero || rem != 0;
    }
    proof {
        let n = digits_value(d@.subrange(p as int, len as int)) * two_55();
        let den = pow(10, (len - p) as nat);
        vstd::arithmetic::div_mod::lemma_fundamental_div_mod_converse(n, den, carry as int, low);
    }
    (carry, nonzero)
}

/// The number of binary digits of `n`.
fn bit_length_of(n: u128) -> (r: u128)
    ensures
        r == bit_length(n as nat),
{
    let mut x = n;
    let mut r: u128 = 0;
    while x > 0
        invariant
            bit_length(n as nat) == r + bit_length(x as nat),
            r <= n - x,
            x <= n,
        decreases x,
    {
        x = x / 2;
        r += 1;
    }
    r
}

/// `2^n`.
fn pow2(n: u128) -> (r: u128)
    requires
        n <= 64,
    ensures
        r == pow(2, n as nat),
{
    let mut r: u128 = 1;
    let mut i: u128 = 0;
    assert(pow(2, 0) == 1) by {
        reveal(pow);
    }
    assert(pow(2, 64) == 0x1_0000_0000_0000_0000) by {
        reveal_with_fuel(pow, 65);
    }
    while i < n
        invariant
            i <= n <= 64,
            r == pow(2, i as nat),
            pow(2, 64) == 0x1_0000_0000_0000_0000,
        decreases n - i,
    {
        proof {
            lemma_pow_next(2, i as nat);
            vstd::arithmetic::power::lemma_pow_increases(2, (i + 1) as nat, 64);
        }
        r = r * 2;
        i += 1;
    }
    r
}

/// Powers of two used as binary64 thresholds.
proof fn lemma_pow2_values()
    ensures
        pow(2, 11) == 2048,
        pow(2, 51) == 0x8_0000_0000_0000,
        pow(2, 52) == 0x10_0000_0000_0000,
        pow(2, 53) == 0x20_0000_0000_0000,
        pow(2, 64) == 0x1_0000_0000_0000_0000,
{
    assert(pow(2, 11) == 2048) by {
        reveal_with_fuel(pow, 12);
    }
    assert(pow(2, 40) == 0x100_0000_0000) by {
        reveal_with_fuel(pow, 41);
    }
    vstd::arithmetic::power::lemma_pow_adds(2, 40, 11);
    lemma_pow_next(2, 51);
    lemma_pow_next(2, 52);
    vstd::arithmetic::power::lemma_pow_adds(2, 53, 11);
}

/// The rounding of a number from `2^53` up to `2^64`: to the nearest
/// multiple of its binary64 spacing, ties to the even multiple.
fn round_large(i: u128, g: u128, z: bool, Ghost(num): Ghost<int>, Ghost(den): Ghost<int>) -> (r: u64)
    requires
        0x20_0000_0000_0000 <= i < 0x1_0000_0000_0000_0000,
        den > 0,
        (frac_excess(num, den, 0) > 0) == (g > 0 || z),
    ensures
        r as int == binary64_round(i as int, num, den),
{
    let max: u64 = 0xffff_ffff_ffff_ffff;
    let bl = bit_length_of(i);
    proof {
        lemma_pow2_values();
        lemma_bit_length_above(i as nat, 53);
        lemma_bit_length_below(i as nat, 64);
    }
    let u = pow2(bl - 53);
    proof {
        vstd::arithmetic::power::lemma_pow_positive(2, (bl - 53) as nat);
        vstd::arithmetic::power::lemma_pow_increases(2, (bl - 53) as nat, 11);
    }
    let q = i / u;
    let rem = i % u;
    let up = rem > u / 2 || (rem == u / 2 && ((g > 0 || z) || q % 2 == 1));
    let qq: u128 = if up {
        q + 1
    } else {
        q
    };
    proof {
        vstd::arithmetic::div_mod::lemma_fundamental_div_mod(i as int, u as int);
        assert(qq * u <= i + u) by (nonlinear_arith)
            requires
                i == u * q + rem,
                0 <= rem,
                qq <= q + 1,
                u > 0,
        ;
    }
    let v = qq * u;
    if v > max as u128 {
        max
    } else {
        v as u64
    }
}

/// The rounding of the number with whole part `i < 2^64` and fraction
/// `num / den`, given `g = floor(num * 2^55 / den)` and whether the
/// division leaves a remainder.
fn round_parts(i: u128, g: u128, z: bool, Ghost(num): Ghost<int>, Ghost(den): Ghost<int>) -> (r: u64)
    requires
        i < 0x1_0000_0000_0000_0000,
        den > 0,
        g == (num * two_55()) / den,
        z == ((num * two_55()) % den != 0),
    ensures
        r as int == binary64_round(i as int, num, den),
{
    let ghost n = num * two_55();
    proof {
        vstd::arithmetic::div_mod::lemma_fundamental_div_mod(n, den);
        lemma_scaled_compare(n, den, g as int, n % den, 0);
        lemma_scaled_compare(n, den, g as int, n % den, 0x40_0000_0000_0000);
        lemma_scaled_compare(n, den, g as int, n % den, 0x20_0000_0000_0000);
        lemma_scaled_compare(n, den, g as int, n % den, 0x40_0000_0000_0000 - 1);
    }
    if i >= 0x20_0000_0000_0000 {
        round_large(i, g, z, Ghost(num), Ghost(den))
    } else if i >= 0x10_0000_0000_0000 {
        let gt = g > 0x40_0000_0000_0000 || (g == 0x40_0000_0000_0000 && z);
        let eq = g == 0x40_0000_0000_0000 && !z;
        let up = gt || (eq && i % 2 == 1);
        (if up {
            i + 1
        } else {
            i
        }) as u64
    } else if i >= 0x8_0000_0000_0000 {
        let up = g > 0x20_0000_0000_0000 || (g == 0x20_0000_0000_0000 && z);
        (if up {
            i + 1
        } else {
            i
        }) as u64
    } else if i >= 1 {
        let bl = bit_length_of(i);
        proof {
            lemma_pow2_values();
            lemma_bit_length_below(i as nat, 51);
            vstd::arithmetic::power::lemma_pow_increases(2, (bl + 1) as nat, 52);
        }
        let c = 0x40_0000_0000_0000 - pow2(bl + 1);
        proof {
            lemma_scaled_compare(n, den, g as int, n % den, c as int);
        }
        let up = g >= c;
        (if up {
            i + 1
        } else {
            i
        }) as u64
    } else {
        if g >= 0x40_0000_0000_0000 - 1 {
            1
        } else {
            0
        }
    }
}

/// What `round()` and a cast to `u64` make of the binary64 number nearest
/// to the number written with the digits `d` and the point after the first
/// `p` of them.
fn round_binary64(d: &Vec<char>, p: i128) -> (r: u64)
    requires
        all_digits(d@),
    ensures
        r as int == f64_rounded_at(d@, p as int),
{
    let i = whole_capped(d, p);
    if i == 0x1_0000_0000_0000_0000 {
        return 0xffff_ffff_ffff_ffff;
    }
    if p < 0 {
        proof {
            lemma_point_before_digits(d@, p as int);
        }
        return 0;
    }
    let len = d.len();
    let pp: usize = if p < len as i128 {
        p as usize
    } else {
        len
    };
    let (g, z) = fraction_bits(d, pp);
    proof {
        if p < len as i128 {
            assert(fraction_digits_at(d@, p as int) == d@.subrange(pp as int, len as int));
        } else {
            assert(fraction_digits_at(d@, p as int) =~= d@.subrange(pp as int, len as int));
        }
        vstd::arithmetic::power::lemma_pow_positive(10, (len - pp) as nat);
    }
    let ghost num = digits_value(d@.subrange(pp as int, len as int)) as int;
    let ghost den = pow(10, (len - pp) as nat);
    round_parts(i, g, z, Ghost(num), Ghost(den))
}

/// The digits `s[a..b]` followed by the digits `s[c..d]`.
fn joined_digits(s: &Vec<char>, a: usize, b: usize, c: usize, d: usize) -> (r: Vec<char>)
    requires
        a <= b <= s.len(),
        c <= d <= s.len(),
    ensures
        r@ == s@.subrange(a as int, b as int) + s@.subrange(c as int, d as int),
{
    let mut r: Vec<char> = Vec::new();
    let mut i = a;
    while i < b
        invariant
            a <= i <= b <= s@.len(),
            r@ == s@.subrange(a as int, i as int),
        decreases b - i,
    {
        r.push(s[i]);
        assert(s@.subrange(a as int, i + 1) == s@.subrange(a as int, i as int).push(s@[i as int]));
        i += 1;
    }
    let mut i = c;
    while i < d
        invariant
            c <= i <= d <= s@.len(),
            a <= b <= s@.len(),
            r@ == s@.subrange(a as int, b as int) + s@.subrange(c as int, i as int),
        decreases d - i,
    {
        r.push(s[i]);
        assert(s@.subrange(c as int, i + 1) == s@.subrange(c as int, i as int).push(s@[i as int]));
        i += 1;
    }
    r
}

/// The exponent of a finite literal `b`, where its mantissa is valid: its
/// sign and its magnitude held at `bound`; `None` when the text after the
/// marker is not an exponent.
fn exponent_of(s: &Vec<char>, start: usize, e: usize, bound: u128) -> (r: Option<(bool, u128)>)
    requires
        start <= e <= s.len(),
        e - start == exp_position(s@.subrange(start as int, s@.len() as int)),
        bound <= 0x1_0000_0000_0000_0000_0000_0000_0000,
    ensures
        ({
            let b = s@.subrange(start as int, s@.len() as int);
            let t = exponent_text(b);
            if !has_exponent(b) {
                r == Some((false, 0u128))
            } else {
                match r {
                    None => !is_exponent(t),
                    Some((neg, v)) => is_exponent(t) && neg == (t.len() > 0 && t[0] == '-') && v
                        == capped(digits_value(unsigned_part(t)) as int, bound as int),
                }
            }
        }),
{
    let n = s.len();
    let ghost b = s@.subrange(start as int, n as int);
    if e >= n {
        return Some((false, 0));
    }
    let ts = e + 1;
    let ghost t = exponent_text(b);
    assert(t == s@.subrange(ts as int, n as int));
    let es: usize = if ts < n && (s[ts] == '+' || s[ts] == '-') {
        ts + 1
    } else {
        ts
    };
    let neg = ts < n && s[ts] == '-';
    assert(unsigned_part(t) == s@.subrange(es as int, n as int));
    if es == n || !all_digits_in(s, es, n) {
        return None;
    }
    Some((neg, capped_digits(s, es, n, bound)))
}

/// The rounded value of a finite literal `s[start..]`; `None` when it is
/// not one.
fn parse_finite(s: &Vec<char>, start: usize) -> (r: Option<u64>)
    requires
        start <= s.len(),
    ensures
        ({
            let b = s@.subrange(start as int, s@.len() as int);
            match r {
                Some(v) => is_finite_float(b) && v as int == f64_rounded_at(
                    digit_string(b),
                    point_shift(b),
                ),
                None => !is_finite_float(b),
            }
        }),
{
    let n = s.len();
    let ghost b = s@.subrange(start as int, n as int);
    let e = find_exponent_marker(s, start, n);
    let ghost m = mantissa(b);
    assert(m == s@.subrange(start as int, e as int));
    let p = find_point(s, start, e);
    let fs: usize = if p < e {
        p + 1
    } else {
        e
    };
    assert(whole_digits(m) == s@.subrange(start as int, p as int));
    assert(fraction_digits(m) == s@.subrange(fs as int, e as int));
    if !all_digits_in(s, start, p) || !all_digits_in(s, fs, e) || (p == start && fs == e) {
        return None;
    }
    // The exponent, held at a bound far past any number of digits.
    let bound: u128 = 0x1_0000_0000_0000_0000_0000;
    let (eneg, ev) = match exponent_of(s, start, e, bound) {
        Some(x) => x,
        None => {
            return None;
        },
    };
    let digits = joined_digits(s, start, p, fs, e);
    let ghost ds = digit_string(b);
    assert(digits@ == ds);
    assert(all_digits(ds)) by {
        let w = whole_digits(m);
        let f = fraction_digits(m);
        assert forall|j: int| 0 <= j < ds.len() implies is_digit(#[trigger] ds[j]) by {
            if j < w.len() {
                assert(ds[j] == w[j]);
            } else {
                assert(ds[j] == f[j - w.len()]);
            }
        }
    }
    let w = (p - start) as i128;
    let shift: i128 = if eneg {
        w - ev as i128
    } else {
        w + ev as i128
    };
    proof {
        let t = exponent_text(b);
        let x = digits_value(unsigned_part(t)) as int;
        if has_exponent(b) && x > bound {
            lemma_exponent_bound(ds, w as int, x, bound as int);
        }
    }
    Some(round_binary64(&digits, shift))
}

/// Reads a number the way `s.parse::<f64>()` does and rounds it to a whole
/// number the way `round()` and a cast to `u64` then do: the binary64
/// number nearest to the value written (ties to even), rounded half away
/// from zero and held at `u64::MAX`, computed in integers; `None` for text
/// that `f64::from_str` refuses.
pub fn parse_rounded_u64(s: &Vec<char>) -> (r: Option<u64>)
    ensures
        match r {
            Some(v) => is_float_text(s@) && v as int == rounded_u64(s@),
            None => !is_float_text(s@),
        },
{
    let n = s.len();
    let start: usize = if n > 0 && (s[0] == '+' || s[0] == '-') {
        1
    } else {
        0
    };
    let negative = n > 0 && s[0] == '-';
    assert(unsigned_part(s@) == s@.subrange(start as int, n as int));
    let is_nan = range_eq_ignore_case(s, start, n, "nan");
    let is_inf = range_eq_ignore_case(s, start, n, "inf") || range_eq_ignore_case(
        s,
        start,
        n,
        "infinity",
    );
    if is_nan || is_inf {
        return Some(
            if negative || is_nan {
                0
            } else {
                0xffff_ffff_ffff_ffff
            },
        );
    }
    match parse_finite(s, start) {
        Some(v) => Some(
            if negative {
                0
            } else {
                v
            },
        ),
        None => None,
    }
}

} // verus!
