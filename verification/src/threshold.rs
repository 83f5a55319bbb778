//! The threshold: a percentage strictly between 0 and 100.
//!
//! It is written as a decimal number: an optional sign, digits with at most
//! one decimal point and a digit on at least one side of it, and optionally an
//! exponent of ten behind `e` or `E`. It is read exactly, with every digit it
//! has, and held against a ratio without rounding.

use crate::ratio::{Fraction, Ratio, MAX_TOTAL};
use crate::text::{
    all_digits, chars_of, count_leading, decimal_value, digit_of, digit_value, is_digit,
    lemma_count_leading, lemma_decimal_value_bound, lemma_decimal_value_concat,
    lemma_pow10_positive, pow10, to_digit,
};
use vstd::prelude::*;

verus! {

/// The number `scaled / 10^scale`: the mathematical value of a threshold, in
/// percent.
pub struct Decimal {
    pub scaled: nat,
    pub scale: nat,
}

impl Decimal {
    /// The number lies strictly between 0 and 100.
    pub open spec fn in_range(self) -> bool {
        0 < self.scaled < 100 * pow10(self.scale)
    }
}

impl Fraction {
    /// The fraction is at least `percent` hundredths: `num / den >= percent / 100`,
    /// for a positive `den`. Equality counts.
    pub open spec fn reaches(self, percent: Decimal) -> bool {
        self.num * 100 * pow10(percent.scale) >= percent.scaled * self.den
    }

    /// The fraction is exactly `percent` hundredths, for a positive `den`.
    pub open spec fn equals(self, percent: Decimal) -> bool {
        self.num * 100 * pow10(percent.scale) == percent.scaled * self.den
    }

    /// The fraction is less than `percent` hundredths, for a positive `den`.
    pub open spec fn is_below(self, percent: Decimal) -> bool {
        self.num * 100 * pow10(percent.scale) < percent.scaled * self.den
    }
}

/// How many characters the sign at the front of `s` takes: 1 or 0.
pub open spec fn sign_len(s: Seq<char>) -> int {
    if s.len() > 0 && (s[0] == '+' || s[0] == '-') {
        1
    } else {
        0
    }
}

/// Whether `s` begins with a minus sign.
pub open spec fn is_negative(s: Seq<char>) -> bool {
    s.len() > 0 && s[0] == '-'
}

/// The digits of `s` before the decimal point: the run of digits behind the
/// sign.
pub open spec fn whole_digits(s: Seq<char>) -> Seq<char> {
    let body = s.skip(sign_len(s));
    body.take(count_leading(body, true) as int)
}

/// What follows the digits before the decimal point.
pub open spec fn after_whole(s: Seq<char>) -> Seq<char> {
    let body = s.skip(sign_len(s));
    body.skip(count_leading(body, true) as int)
}

/// Whether a decimal point follows the digits before it.
pub open spec fn has_point(s: Seq<char>) -> bool {
    after_whole(s).len() > 0 && after_whole(s)[0] == '.'
}

/// The digits of `s` behind the decimal point: the run of digits that follows
/// it; empty where there is no point.
pub open spec fn frac_digits(s: Seq<char>) -> Seq<char> {
    if has_point(s) {
        let rest = after_whole(s).skip(1);
        rest.take(count_leading(rest, true) as int)
    } else {
        Seq::empty()
    }
}

/// What follows the digits and the decimal point.
pub open spec fn after_mantissa(s: Seq<char>) -> Seq<char> {
    if has_point(s) {
        let rest = after_whole(s).skip(1);
        rest.skip(count_leading(rest, true) as int)
    } else {
        after_whole(s)
    }
}

/// Whether an `e` or `E` follows the digits and the decimal point.
pub open spec fn has_exponent(s: Seq<char>) -> bool {
    after_mantissa(s).len() > 0 && (after_mantissa(s)[0] == 'e' || after_mantissa(s)[0] == 'E')
}

/// What follows the `e` or `E`: the exponent with its sign.
pub open spec fn exponent_part(s: Seq<char>) -> Seq<char> {
    after_mantissa(s).skip(1)
}

/// What follows the exponent's sign.
pub open spec fn exponent_digits(s: Seq<char>) -> Seq<char> {
    exponent_part(s).skip(sign_len(exponent_part(s)))
}

/// The exponent of ten that `s` writes; 0 where it writes none.
pub open spec fn exponent_of(s: Seq<char>) -> int {
    if !has_exponent(s) {
        0
    } else if is_negative(exponent_part(s)) {
        -(decimal_value(exponent_digits(s)) as int)
    } else {
        decimal_value(exponent_digits(s)) as int
    }
}

/// Whether `s` is a decimal number: an optional `+` or `-`; digits, optionally
/// with a `.` among them, before them or behind them, at least one digit in
/// all; and optionally `e` or `E`, an optional `+` or `-`, and at least one
/// digit.
pub open spec fn is_decimal(s: Seq<char>) -> bool {
    &&& whole_digits(s).len() + frac_digits(s).len() > 0
    &&& after_mantissa(s).len() == 0 || (has_exponent(s) && exponent_digits(s).len() > 0
        && all_digits(exponent_digits(s)))
}

/// `n` zeros.
pub open spec fn zeros(n: nat) -> Seq<char> {
    Seq::new(n, |i: int| '0')
}

/// The digits that stand before the decimal point once the point, which
/// stands behind the first `w` of `digits`, has moved `e` places to the right
/// (to the left where `e` is negative). Zeros fill the places behind the
/// last digit.
pub open spec fn digits_before_point(digits: Seq<char>, w: int, e: int) -> Seq<char> {
    let p = w + e;
    if p <= 0 {
        Seq::empty()
    } else if p <= digits.len() {
        digits.take(p)
    } else {
        digits + zeros((p - digits.len()) as nat)
    }
}

/// The digits that stand behind the decimal point once it has moved `e`
/// places to the right. Zeros fill the places before the first digit.
pub open spec fn digits_after_point(digits: Seq<char>, w: int, e: int) -> Seq<char> {
    let p = w + e;
    if p <= 0 {
        zeros((-p) as nat) + digits
    } else if p <= digits.len() {
        digits.skip(p)
    } else {
        Seq::empty()
    }
}

/// The number with the digits `digits`, the point behind the first `w` of
/// them, times ten to the power `e`.
pub open spec fn decimal_from(digits: Seq<char>, w: int, e: int) -> Decimal {
    let before = digits_before_point(digits, w, e);
    let after = digits_after_point(digits, w, e);
    Decimal { scaled: decimal_value(before + after), scale: after.len() }
}

/// The magnitude of the number that `s` writes: its digits, with the decimal
/// point moved by the exponent.
pub open spec fn decimal_of(s: Seq<char>) -> Decimal {
    decimal_from(
        whole_digits(s) + frac_digits(s),
        whole_digits(s).len() as int,
        exponent_of(s),
    )
}

/// Zeros are worth nothing.
pub proof fn lemma_zeros_value(n: nat)
    ensures
        decimal_value(zeros(n)) == 0,
        all_digits(zeros(n)),
    decreases n,
{
    if n > 0 {
        lemma_zeros_value((n - 1) as nat);
        assert(zeros(n).drop_last() =~= zeros((n - 1) as nat));
        assert(zeros(n).last() == '0');
    }
}

/// Zeros before the digits do not change their value; zeros behind them
/// multiply it by ten each.
pub proof fn lemma_zeros_around(digits: Seq<char>, n: nat)
    ensures
        decimal_value(zeros(n) + digits) == decimal_value(digits),
        decimal_value(digits + zeros(n)) == decimal_value(digits) * pow10(n),
{
    lemma_zeros_value(n);
    lemma_decimal_value_concat(zeros(n), digits);
    lemma_decimal_value_concat(digits, zeros(n));
    let p = pow10(digits.len()) as int;
    assert(0 * p == 0) by (nonlinear_arith);
}

/// A larger exponent gives a larger power of ten.
pub proof fn lemma_pow10_monotone(a: nat, b: nat)
    requires
        a <= b,
    ensures
        pow10(a) <= pow10(b),
    decreases b,
{
    if a < b {
        lemma_pow10_monotone(a, (b - 1) as nat);
    }
}

/// What the digits before and behind the moved point are worth.
proof fn lemma_decimal_parts(digits: Seq<char>, w: int, e: int)
    requires
        all_digits(digits),
        0 <= w <= digits.len(),
    ensures
        ({
            let before = digits_before_point(digits, w, e);
            let after = digits_after_point(digits, w, e);
            let p = w + e;
            &&& all_digits(after)
            &&& decimal_value(before + after) == decimal_value(before) * pow10(after.len())
                + decimal_value(after)
            &&& decimal_value(after) < pow10(after.len())
            &&& p <= 0 ==> decimal_value(before) == 0 && decimal_value(after) == decimal_value(
                digits,
            ) && after.len() == digits.len() - p
            &&& 0 < p <= digits.len() ==> decimal_value(before + after) == decimal_value(digits)
            &&& p > digits.len() ==> decimal_value(before) == decimal_value(digits) * pow10(
                (p - digits.len()) as nat,
            ) && after.len() == 0
        }),
{
    let before = digits_before_point(digits, w, e);
    let after = digits_after_point(digits, w, e);
    let p = w + e;
    lemma_decimal_value_concat(before, after);
    if p <= 0 {
        lemma_zeros_value((-p) as nat);
        lemma_zeros_around(digits, (-p) as nat);
        assert forall|i: int| 0 <= i < after.len() implies is_digit(#[trigger] after[i]) by {
            if i >= -p {
                assert(after[i] == digits[i + p]);
            }
        }
    } else if p <= digits.len() {
        assert(before + after =~= digits);
        assert forall|i: int| 0 <= i < after.len() implies is_digit(#[trigger] after[i]) by {
            assert(after[i] == digits[i + p]);
        }
    } else {
        lemma_zeros_around(digits, (p - digits.len()) as nat);
    }
    lemma_decimal_value_bound(after);
}

/// A number with a whole part and a fraction lies strictly between 0 and 100
/// exactly where the whole part is below 100 and one of the two is not zero.
proof fn lemma_in_range_parts(whole: int, frac: int, unit: int)
    requires
        0 <= whole,
        0 <= frac < unit,
    ensures
        (0 < whole * unit + frac < 100 * unit) <==> (whole < 100 && (whole > 0 || frac > 0)),
{
    assert(whole >= 100 ==> whole * unit >= 100 * unit) by (nonlinear_arith)
        requires
            unit > 0,
    ;
    assert(whole <= 99 ==> whole * unit <= 99 * unit) by (nonlinear_arith)
        requires
            unit > 0,
            whole >= 0,
    ;
    assert(whole >= 1 ==> whole * unit >= unit) by (nonlinear_arith)
        requires
            unit > 0,
    ;
    assert(whole == 0 ==> whole * unit == 0) by (nonlinear_arith);
}

/// Why a string is no threshold.
#[derive(Clone, Copy, Debug, PartialEq, Eq, Structural)]
pub enum ThresholdError {
    /// It is not a decimal number.
    Malformed,
    /// It is a number, but not one strictly between 0 and 100.
    OutOfRange,
}

/// The largest exponent that is read in full; any larger one is known to be
/// at least this.
const EXPONENT_CAP: u128 = 0x10_0000_0000_0000_0000_0000_0000;

/// The value of `digits`, or `EXPONENT_CAP` where it is that or more.
fn capped_value(digits: &Vec<char>) -> (v: u128)
    requires
        all_digits(digits@),
    ensures
        v <= EXPONENT_CAP,
        v < EXPONENT_CAP ==> v == decimal_value(digits@),
        v == EXPONENT_CAP ==> decimal_value(digits@) >= EXPONENT_CAP,
{
    let mut v: u128 = 0;
    let mut i: usize = 0;
    while i < digits.len()
        invariant
            i <= digits.len(),
            all_digits(digits@),
            v <= EXPONENT_CAP,
            v < EXPONENT_CAP ==> v == decimal_value(digits@.take(i as int)),
            v == EXPONENT_CAP ==> decimal_value(digits@.take(i as int)) >= EXPONENT_CAP,
        decreases digits.len() - i,
    {
        let d = digit_of(digits[i]);
        proof {
            let next = digits@.take(i + 1);
            assert(next.drop_last() =~= digits@.take(i as int));
            assert(next.last() == digits@[i as int]);
        }
        if v < EXPONENT_CAP {
            let next = v * 10 + d as u128;
            v = if next >= EXPONENT_CAP {
                EXPONENT_CAP
            } else {
                next
            };
        }
        i += 1;
    }
    assert(digits@.take(i as int) =~= digits@);
    v
}

/// The value of the first `upto` of `digits`, or 100 where it is 100 or more.
fn capped_prefix(digits: &Vec<char>, upto: usize) -> (v: u8)
    requires
        all_digits(digits@),
        upto <= digits.len(),
    ensures
        v <= 100,
        v < 100 ==> v == decimal_value(digits@.take(upto as int)),
        v == 100 ==> decimal_value(digits@.take(upto as int)) >= 100,
{
    let mut v: u8 = 0;
    let mut i: usize = 0;
    while i < upto
        invariant
            i <= upto <= digits.len(),
            all_digits(digits@),
            v <= 100,
            v < 100 ==> v == decimal_value(digits@.take(i as int)),
            v == 100 ==> decimal_value(digits@.take(i as int)) >= 100,
        decreases upto - i,
    {
        let d = digit_of(digits[i]);
        proof {
            let next = digits@.take(i + 1);
            assert(next.drop_last() =~= digits@.take(i as int));
            assert(next.last() == digits@[i as int]);
        }
        v = if v >= 10 {
            100
        } else {
            v * 10 + d
        };
        i += 1;
    }
    v
}

/// Whether `digits` are worth more than zero.
fn any_nonzero(digits: &Vec<char>) -> (b: bool)
    requires
        all_digits(digits@),
    ensures
        b == (decimal_value(digits@) > 0),
{
    let mut b = false;
    let mut i: usize = 0;
    while i < digits.len()
        invariant
            i <= digits.len(),
            all_digits(digits@),
            b == (decimal_value(digits@.take(i as int)) > 0),
        decreases digits.len() - i,
    {
        let d = digit_of(digits[i]);
        proof {
            let next = digits@.take(i + 1);
            assert(next.drop_last() =~= digits@.take(i as int));
            assert(next.last() == digits@[i as int]);
        }
        b = b || d > 0;
        i += 1;
    }
    assert(digits@.take(i as int) =~= digits@);
    b
}

/// Appends to `out` the run of digits that `chars` holds from `from` on, and
/// returns where the run ends.
fn scan_digits(chars: &Vec<char>, from: usize, out: &mut Vec<char>) -> (to: usize)
    requires
        from <= chars.len(),
    ensures
        from <= to <= chars.len(),
        final(out)@ == old(out)@ + chars@.subrange(from as int, to as int),
        all_digits(chars@.subrange(from as int, to as int)),
        count_leading(chars@.skip(from as int), true) == to - from,
        to == chars.len() || !is_digit(chars@[to as int]),
{
    let mut i = from;
    while i < chars.len()
        invariant
            from <= i <= chars.len(),
            out@ == old(out)@ + chars@.subrange(from as int, i as int),
            forall|k: int| from <= k < i ==> is_digit(#[trigger] chars@[k]),
        ensures
            from <= i <= chars.len(),
            out@ == old(out)@ + chars@.subrange(from as int, i as int),
            forall|k: int| from <= k < i ==> is_digit(#[trigger] chars@[k]),
            i == chars.len() || !is_digit(chars@[i as int]),
        decreases chars.len() - i,
    {
        if to_digit(chars[i]).is_none() {
            break ;
        }
        out.push(chars[i]);
        assert(out@ =~= old(out)@ + chars@.subrange(from as int, i + 1));
        i += 1;
    }
    proof {
        let rest = chars@.skip(from as int);
        assert forall|k: int| 0 <= k < i - from implies is_digit(#[trigger] rest[k]) by {
            assert(rest[k] == chars@[from + k]);
        }
        if i < chars.len() {
            assert(rest[i - from] == chars@[i as int]);
        }
        lemma_count_leading(rest, true, i - from);
    }
    i
}

/// The number that `digits` write, with a minus sign before it where
/// `negative` says so.
pub open spec fn signed_value(negative: bool, digits: Seq<char>) -> int {
    if negative {
        -(decimal_value(digits) as int)
    } else {
        decimal_value(digits) as int
    }
}

/// The parts of a decimal number.
struct Parts {
    negative: bool,
    digits: Vec<char>,
    whole_len: usize,
    exp_negative: bool,
    exp_digits: Vec<char>,
}

/// Reads an exponent: `e` or `E`, an optional sign and at least one digit,
/// up to the end of `chars`. Returns whether the sign is a minus, and the
/// digits; `None` where what stands at `at` is no exponent.
fn scan_exponent(chars: &Vec<char>, at: usize) -> (r: Option<(bool, Vec<char>)>)
    requires
        at < chars.len(),
    ensures
        ({
            let mark = chars@[at as int];
            let part = chars@.skip(at + 1);
            let written = part.skip(sign_len(part));
            match r {
                Some((negative, digits)) => {
                    &&& mark == 'e' || mark == 'E'
                    &&& negative == is_negative(part)
                    &&& digits@ == written
                    &&& digits@.len() > 0
                    &&& all_digits(digits@)
                },
                None => !((mark == 'e' || mark == 'E') && written.len() > 0 && all_digits(
                    written,
                )),
            }
        }),
{
    if chars[at] != 'e' && chars[at] != 'E' {
        return None;
    }
    let n = chars.len();
    let mut from = at + 1;
    let mut negative = false;
    if from < n && (chars[from] == '+' || chars[from] == '-') {
        negative = chars[from] == '-';
        from += 1;
    }
    let mut digits: Vec<char> = Vec::new();
    let end = scan_digits(chars, from, &mut digits);
    proof {
        let part = chars@.skip(at + 1);
        let written = part.skip(sign_len(part));
        assert(written =~= chars@.skip(from as int));
        assert(digits@ =~= chars@.subrange(from as int, end as int));
        if end < n {
            assert(written[end - from] == chars@[end as int]);
        } else {
            assert(digits@ =~= written);
        }
    }
    if end < n || digits.len() == 0 {
        return None;
    }
    Some((negative, digits))
}

/// Takes a decimal number apart; `None` where `s` is none.
fn split(s: &str) -> (r: Option<Parts>)
    ensures
        match r {
            Some(parts) => {
                &&& is_decimal(s@)
                &&& parts.negative == is_negative(s@)
                &&& parts.digits@ == whole_digits(s@) + frac_digits(s@)
                &&& parts.whole_len == whole_digits(s@).len()
                &&& all_digits(parts.digits@)
                &&& all_digits(parts.exp_digits@)
                &&& exponent_of(s@) == signed_value(parts.exp_negative, parts.exp_digits@)
            },
            None => !is_decimal(s@),
        },
{
    let chars = chars_of(s);
    let n = chars.len();
    let signed = n > 0 && (chars[0] == '+' || chars[0] == '-');
    let negative = n > 0 && chars[0] == '-';
    let start: usize = if signed {
        1
    } else {
        0
    };
    let mut digits: Vec<char> = Vec::new();
    let point = scan_digits(&chars, start, &mut digits);
    let w = digits.len();
    let ghost whole = s@.subrange(start as int, point as int);
    proof {
        assert(digits@ =~= whole);
        assert(whole_digits(s@) =~= whole);
        assert(after_whole(s@) =~= s@.skip(point as int));
    }
    let mut mantissa_end = point;
    if point < n && chars[point] == '.' {
        mantissa_end = scan_digits(&chars, point + 1, &mut digits);
        proof {
            assert(after_whole(s@).skip(1) =~= s@.skip(point + 1));
            assert(frac_digits(s@) =~= s@.subrange(point + 1, mantissa_end as int));
            assert(after_mantissa(s@) =~= s@.skip(mantissa_end as int));
        }
    }
    let ghost frac = frac_digits(s@);
    assert(digits@ =~= whole + frac);
    assert(all_digits(digits@)) by {
        assert forall|k: int| 0 <= k < digits@.len() implies is_digit(#[trigger] digits@[k]) by {
            if k < w {
                assert(digits@[k] == whole[k]);
            } else {
                assert(digits@[k] == frac[k - w]);
            }
        }
    }
    if digits.len() == 0 {
        return None;
    }
    if mantissa_end == n {
        let exp_digits: Vec<char> = Vec::new();
        assert(decimal_value(exp_digits@) == 0);
        return Some(Parts { negative, digits, whole_len: w, exp_negative: false, exp_digits });
    }
    assert(exponent_part(s@) =~= chars@.skip(mantissa_end + 1));
    match scan_exponent(&chars, mantissa_end) {
        Some((exp_negative, exp_digits)) => Some(
            Parts { negative, digits, whole_len: w, exp_negative, exp_digits },
        ),
        None => None,
    }
}

/// A percentage strictly between 0 and 100. Its value is `self@`.
#[derive(Debug, PartialEq, Eq)]
pub struct Threshold {
    /// The part before the decimal point.
    whole: u8,
    /// The digits of a number that may be too large to hold otherwise: with
    /// `gap_less` taken off, it is the count of zeros that follow the point.
    gap_digits: Vec<char>,
    /// What is taken off the number that `gap_digits` write.
    gap_less: usize,
    /// The digits that follow those zeros.
    frac: Vec<char>,
}

impl View for Threshold {
    type V = Decimal;

    closed spec fn view(&self) -> Decimal {
        Decimal {
            scaled: self.whole as nat * pow10(self.gap() + self.frac@.len()) + decimal_value(
                self.frac@,
            ),
            scale: self.gap() + self.frac@.len(),
        }
    }
}

/// The difference `100 * num * 10^i - (whole.frac[..i] * 10^i) * den`, whose sign
/// tells whether `num / den` has reached the percentage written by `whole`
/// and the first `i` digits of `frac`.
spec fn lead(num: int, den: int, whole: int, frac: Seq<char>, i: int) -> int {
    100 * num * pow10(i as nat) - (whole * pow10(i as nat) + decimal_value(frac.take(i))) * den
}

/// One more digit: the lead is multiplied by ten, less the digit times `den`.
proof fn lemma_lead_step(num: int, den: int, whole: int, frac: Seq<char>, i: int)
    requires
        0 <= i < frac.len(),
    ensures
        lead(num, den, whole, frac, i + 1) == 10 * lead(num, den, whole, frac, i) - digit_value(
            frac[i],
        ) * den,
{
    let p = pow10(i as nat) as int;
    let v = decimal_value(frac.take(i)) as int;
    let d = digit_value(frac[i]) as int;
    assert(frac.take(i + 1).drop_last() =~= frac.take(i));
    assert(frac.take(i + 1).last() == frac[i]);
    assert(decimal_value(frac.take(i + 1)) == 10 * v + d);
    assert(pow10((i + 1) as nat) == 10 * p);
    assert(100 * num * (10 * p) - (whole * (10 * p) + (10 * v + d)) * den == 10 * (100 * num * p
        - (whole * p + v) * den) - d * den) by (nonlinear_arith);
}

/// Once the lead is negative it stays negative, and once it is at least `den`
/// it stays so, whatever digits follow.
proof fn lemma_lead_settled(num: int, den: int, whole: int, frac: Seq<char>, i: int)
    requires
        0 <= i <= frac.len(),
        den > 0,
        all_digits(frac),
    ensures
        lead(num, den, whole, frac, i) < 0 ==> lead(num, den, whole, frac, frac.len() as int) < 0,
        lead(num, den, whole, frac, i) >= den ==> lead(num, den, whole, frac, frac.len() as int)
            >= den,
    decreases frac.len() - i,
{
    if i < frac.len() {
        lemma_lead_step(num, den, whole, frac, i);
        assert(is_digit(frac[i]));
        let d = digit_value(frac[i]) as int;
        assert(0 <= d * den <= 9 * den) by (nonlinear_arith)
            requires
                0 <= d <= 9,
                den > 0,
        ;
        lemma_lead_settled(num, den, whole, frac, i + 1);
    }
}

/// The lead over all the digits is not negative exactly where the fraction
/// has reached the percentage.
proof fn lemma_reaches_is_lead(num: int, den: int, whole: int, frac: Seq<char>)
    requires
        whole >= 0,
    ensures
        (lead(num, den, whole, frac, frac.len() as int) >= 0) == (Fraction { num, den }).reaches(
            Decimal {
                scaled: (whole * pow10(frac.len()) + decimal_value(frac)) as nat,
                scale: frac.len(),
            },
        ),
{
    assert(frac.take(frac.len() as int) =~= frac);
    let p = pow10(frac.len()) as int;
    assert(whole * p >= 0) by (nonlinear_arith)
        requires
            whole >= 0,
            p >= 0,
    ;
    assert(100 * num * p == num * 100 * p) by (nonlinear_arith);
}

/// Ten to the twentieth is more than any total.
proof fn lemma_pow10_below_total(j: nat)
    requires
        pow10(j) < MAX_TOTAL,
    ensures
        j < 20,
{
    if j >= 20 {
        lemma_pow10_monotone(20, j);
        reveal_with_fuel(pow10, 21);
        assert(pow10(20) == 100000000000000000000);
    }
}

impl Clone for Threshold {
    fn clone(&self) -> (copy: Self)
        ensures
            copy@ == self@,
    {
        proof {
            use_type_invariant(self);
        }
        let frac = self.frac.clone();
        let gap_digits = self.gap_digits.clone();
        assert(frac@ =~= self.frac@);
        assert(gap_digits@ =~= self.gap_digits@);
        Threshold { whole: self.whole, gap_digits, gap_less: self.gap_less, frac }
    }
}

impl Threshold {
    /// How many zeros stand between the decimal point and `frac`.
    closed spec fn gap(self) -> nat {
        let written = decimal_value(self.gap_digits@);
        if written >= self.gap_less {
            (written - self.gap_less) as nat
        } else {
            0
        }
    }

    #[verifier::type_invariant]
    spec fn well_formed(self) -> bool {
        &&& self.whole < 100
        &&& all_digits(self.frac@)
        &&& all_digits(self.gap_digits@)
        &&& self.whole > 0 || decimal_value(self.frac@) > 0
        &&& self.whole == 0 || self.gap() == 0
    }

    /// Reads a threshold. It is `Ok` exactly for a decimal number, with or
    /// without an exponent, that lies strictly between 0 and 100, and then
    /// holds that number with all its digits.
    pub fn parse(s: &str) -> (r: Result<Threshold, ThresholdError>)
        ensures
            match r {
                Ok(t) => is_decimal(s@) && !is_negative(s@) && decimal_of(s@).in_range() && t@
                    == decimal_of(s@),
                Err(ThresholdError::Malformed) => !is_decimal(s@),
                Err(ThresholdError::OutOfRange) => is_decimal(s@) && (is_negative(s@)
                    || !decimal_of(s@).in_range()),
            },
    {
        let parts = match split(s) {
            Some(parts) => parts,
            None => {
                return Err(ThresholdError::Malformed);
            },
        };
        if parts.negative {
            return Err(ThresholdError::OutOfRange);
        }
        match Self::assemble(parts.digits, parts.whole_len, parts.exp_negative, parts.exp_digits) {
            Some(t) => Ok(t),
            None => Err(ThresholdError::OutOfRange),
        }
    }

    /// The threshold with the digits `digits`, the point behind the first `w`
    /// of them, times ten to the power that `exp_digits` write; `None` where
    /// that number is not strictly between 0 and 100.
    fn assemble(
        digits: Vec<char>,
        w: usize,
        exp_negative: bool,
        exp_digits: Vec<char>,
    ) -> (r: Option<Threshold>)
        requires
            all_digits(digits@),
            all_digits(exp_digits@),
            w <= digits.len(),
        ensures
            match r {
                Some(t) => t@ == decimal_from(
                    digits@,
                    w as int,
                    signed_value(exp_negative, exp_digits@),
                ) && t@.in_range(),
                None => !decimal_from(
                    digits@,
                    w as int,
                    signed_value(exp_negative, exp_digits@),
                ).in_range(),
            },
    {
        let ghost e = signed_value(exp_negative, exp_digits@);
        let ghost p = w + e;
        let ghost before = digits_before_point(digits@, w as int, e);
        let ghost after = digits_after_point(digits@, w as int, e);
        proof {
            lemma_decimal_parts(digits@, w as int, e);
            lemma_pow10_positive(after.len());
            lemma_in_range_parts(
                decimal_value(before) as int,
                decimal_value(after) as int,
                pow10(after.len()) as int,
            );
            let unit = pow10(after.len()) as int;
            assert(0 * unit == 0) by (nonlinear_arith);
        }
        if !any_nonzero(&digits) {
            proof {
                if p > digits@.len() {
                    let unit = pow10((p - digits@.len()) as nat) as int;
                    assert(0 * unit == 0) by (nonlinear_arith);
                }
            }
            return None;
        }
        let written = capped_value(&exp_digits);
        let reach: i128 = if exp_negative {
            w as i128 - written as i128
        } else {
            w as i128 + written as i128
        };
        let len = digits.len();
        if reach <= 0 {
            Some(Self::behind_zeros(digits, w, exp_digits, Ghost(e)))
        } else if reach <= len as i128 {
            assert(p == reach);
            Self::cut_at(digits, reach as usize, Ghost(w as int), Ghost(e))
        } else {
            assert(p > len);
            proof {
                let zeros_behind = (p - len) as nat;
                if zeros_behind >= 2 {
                    lemma_pow10_monotone(2, zeros_behind);
                }
                reveal_with_fuel(pow10, 3);
                let m = decimal_value(digits@) as int;
                let unit = pow10(zeros_behind) as int;
                assert(m >= 1 && unit >= 100 ==> m * unit >= 100) by (nonlinear_arith);
                assert(digits@.take(len as int) =~= digits@);
            }
            if reach - len as i128 >= 2 {
                return None;
            }
            assert(p == len + 1);
            let units = capped_prefix(&digits, len);
            proof {
                reveal_with_fuel(pow10, 2);
                let m = decimal_value(digits@) as int;
                let unit = pow10(1) as int;
                assert(m >= 10 ==> m * unit >= 100) by (nonlinear_arith)
                    requires
                        unit == 10,
                ;
                assert(m * unit == 10 * m) by (nonlinear_arith)
                    requires
                        unit == 10,
                ;
            }
            if units >= 10 {
                return None;
            }
            let t = Threshold {
                whole: units * 10,
                gap_digits: Vec::new(),
                gap_less: 0,
                frac: Vec::new(),
            };
            proof {
                assert(decimal_value(Seq::<char>::empty()) == 0);
                assert(t.gap() == 0);
                assert(pow10(0) == 1);
                assert(pow10(1) == 10);
            }
            Some(t)
        }
    }

    /// The threshold whose point stands before the first of `digits`.
    fn behind_zeros(
        digits: Vec<char>,
        w: usize,
        exp_digits: Vec<char>,
        Ghost(e): Ghost<int>,
    ) -> (t: Threshold)
        requires
            all_digits(digits@),
            all_digits(exp_digits@),
            w <= digits.len(),
            w + e <= 0,
            e == -decimal_value(exp_digits@) || (e == 0 && decimal_value(exp_digits@) == 0),
            decimal_value(digits@) > 0,
        ensures
            t@ == decimal_from(digits@, w as int, e),
            t@.in_range(),
    {
        let ghost after = digits_after_point(digits@, w as int, e);
        proof {
            lemma_decimal_parts(digits@, w as int, e);
            lemma_pow10_positive(after.len());
            lemma_in_range_parts(0, decimal_value(after) as int, pow10(after.len()) as int);
            let unit = pow10(after.len()) as int;
            assert(0 * unit == 0) by (nonlinear_arith);
        }
        let t = Threshold { whole: 0, gap_digits: exp_digits, gap_less: w, frac: digits };
        assert(t.gap() == -(w + e));
        t
    }

    /// The threshold whose point stands behind the first `cut` of `digits`.
    fn cut_at(
        digits: Vec<char>,
        cut: usize,
        Ghost(w): Ghost<int>,
        Ghost(e): Ghost<int>,
    ) -> (r: Option<Threshold>)
        requires
            all_digits(digits@),
            0 <= w <= digits.len(),
            0 < cut <= digits.len(),
            cut == w + e,
            decimal_value(digits@) > 0,
        ensures
            match r {
                Some(t) => t@ == decimal_from(digits@, w, e) && t@.in_range(),
                None => !decimal_from(digits@, w, e).in_range(),
            },
    {
        let ghost before = digits_before_point(digits@, w, e);
        let ghost after = digits_after_point(digits@, w, e);
        proof {
            lemma_decimal_parts(digits@, w, e);
            lemma_pow10_positive(after.len());
            lemma_in_range_parts(
                decimal_value(before) as int,
                decimal_value(after) as int,
                pow10(after.len()) as int,
            );
            let unit = pow10(after.len()) as int;
            assert(0 * unit == 0) by (nonlinear_arith);
        }
        let whole = capped_prefix(&digits, cut);
        if whole >= 100 {
            return None;
        }
        let len = digits.len();
        let mut frac: Vec<char> = Vec::new();
        let mut i = cut;
        while i < len
            invariant
                cut <= i <= len,
                len == digits.len(),
                frac@ == digits@.subrange(cut as int, i as int),
            decreases len - i,
        {
            frac.push(digits[i]);
            assert(frac@ =~= digits@.subrange(cut as int, i + 1));
            i += 1;
        }
        proof {
            assert(frac@ =~= after);
            assert(decimal_value(Seq::<char>::empty()) == 0);
        }
        let t = Threshold { whole, gap_digits: Vec::new(), gap_less: 0, frac };
        assert(t.gap() == 0);
        Some(t)
    }

    /// Whether `ratio` has reached this threshold: whether the ratio is at
    /// least the threshold taken as a percentage. A ratio that equals the
    /// threshold has reached it.
    pub fn is_reached_by(&self, ratio: &Ratio) -> (reached: bool)
        ensures
            reached == ratio@.reaches(self@),
    {
        let num = ratio.numerator();
        let den = ratio.denominator();
        let k = self.frac.len();
        let ghost whole = self.whole as int;
        let ghost gap = self.gap();
        let ghost stream = zeros(gap) + self.frac@;
        let ghost full = stream.len() as int;
        proof {
            use_type_invariant(self);
            lemma_pow10_positive(stream.len());
            lemma_zeros_around(self.frac@, gap);
            lemma_zeros_value(gap);
            lemma_reaches_is_lead(num as int, den as int, whole, stream);
            assert(ratio@ == Fraction { num: num as int, den: den as int });
            assert forall|i: int| 0 <= i < stream.len() implies is_digit(#[trigger] stream[i]) by {
                if i >= gap {
                    assert(stream[i] == self.frac@[i - gap]);
                }
            }
        }
        if num <= 0 {
            proof {
                let scaled = self@.scaled as int;
                let p = pow10(stream.len()) as int;
                assert(scaled > 0) by (nonlinear_arith)
                    requires
                        scaled == whole * p + decimal_value(self.frac@),
                        whole > 0 || decimal_value(self.frac@) > 0,
                        whole >= 0,
                        p > 0,
                ;
                assert(num * 100 * p < scaled * den) by (nonlinear_arith)
                    requires
                        num <= 0,
                        p > 0,
                        scaled > 0,
                        den > 0,
                ;
            }
            return false;
        }
        let written = capped_value(&self.gap_digits);
        let skip: u128 = if written >= self.gap_less as u128 {
            written - self.gap_less as u128
        } else {
            0
        };
        assert(0 <= self.whole * den <= 99 * MAX_TOTAL) by (nonlinear_arith)
            requires
                0 <= self.whole <= 99,
                0 < den <= MAX_TOTAL,
        ;
        let mut lead_now: i128 = 100 * num - (self.whole as i128) * den;
        proof {
            assert(stream.take(0) =~= Seq::<char>::empty());
            let one = pow10(0) as int;
            assert(100 * num * one - (whole * one + 0) * den == 100 * num - whole * den)
                by (nonlinear_arith)
                requires
                    one == 1,
            ;
            assert(100 * num * one == 100 * num) by (nonlinear_arith)
                requires
                    one == 1,
            ;
            if skip > 0 {
                assert(gap > 0);
                assert(self.whole == 0);
                assert(0 * den == 0) by (nonlinear_arith);
            }
        }
        // The zeros behind the point: each moves the lead up by one place.
        let mut j: u128 = 0;
        while j < skip
            invariant
                j <= skip <= gap,
                j <= 20,
                num >= 1,
                0 < den <= MAX_TOTAL,
                all_digits(stream),
                stream == zeros(gap) + self.frac@,
                full == stream.len(),
                skip > 0 ==> self.whole == 0,
                whole == self.whole as int,
                lead_now == lead(num as int, den as int, whole, stream, j as int),
                skip > 0 ==> lead_now == 100 * num * pow10(j as nat),
                ratio@.reaches(self@) == (lead(num as int, den as int, whole, stream, full) >= 0),
            decreases skip - j,
        {
            proof {
                lemma_lead_settled(num as int, den as int, whole, stream, j as int);
            }
            if lead_now >= den {
                return true;
            }
            proof {
                let unit = pow10(j as nat) as int;
                lemma_pow10_positive(j as nat);
                assert(100 * num * unit >= unit) by (nonlinear_arith)
                    requires
                        num >= 1,
                        unit > 0,
                ;
                lemma_pow10_below_total(j as nat);
                lemma_lead_step(num as int, den as int, whole, stream, j as int);
                assert(stream[j as int] == '0');
                let d = digit_value(stream[j as int]) as int;
                assert(d == 0);
                assert(d * den == 0) by (nonlinear_arith)
                    requires
                        d == 0,
                ;
                assert(pow10((j + 1) as nat) == 10 * unit);
                assert(10 * (100 * num * unit) == 100 * num * (10 * unit)) by (nonlinear_arith);
            }
            lead_now = 10 * lead_now;
            j += 1;
        }
        assert(skip == gap);
        let mut i: usize = 0;
        while i < k
            invariant
                k == self.frac.len(),
                stream == zeros(gap) + self.frac@,
                full == stream.len(),
                full == gap + k,
                all_digits(stream),
                all_digits(self.frac@),
                0 < den <= MAX_TOTAL,
                0 <= i <= k,
                lead_now == lead(num as int, den as int, whole, stream, gap + i),
                ratio@.reaches(self@) == (lead(num as int, den as int, whole, stream, full) >= 0),
            decreases k - i,
        {
            proof {
                lemma_lead_settled(num as int, den as int, whole, stream, gap + i);
            }
            if lead_now < 0 {
                return false;
            }
            if lead_now >= den {
                return true;
            }
            let d = digit_of(self.frac[i]);
            proof {
                lemma_lead_step(num as int, den as int, whole, stream, gap + i);
                assert(stream[gap + i] == self.frac@[i as int]);
            }
            assert(0 <= d * den <= 9 * MAX_TOTAL) by (nonlinear_arith)
                requires
                    0 <= d <= 9,
                    0 < den <= MAX_TOTAL,
            ;
            lead_now = 10 * lead_now - (d as i128) * den;
            i += 1;
        }
        lead_now >= 0
    }
}

} // verus!
