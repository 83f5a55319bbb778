//! Characters, prefixes and runs of decimal digits.
//!
//! Text is modelled as `Seq<char>`, the view of `str`. The executable
//! functions work on the characters collected into a `Vec<char>`, so that a
//! position in the vector is a position in the view.

use vstd::prelude::*;

verus! {

/// Whether `c` is one of the ten ASCII decimal digits.
pub open spec fn is_digit(c: char) -> bool {
    '0' <= c && c <= '9'
}

/// The number that the digit `c` stands for.
pub open spec fn digit_value(c: char) -> nat
    recommends
        is_digit(c),
{
    (c as int - '0' as int) as nat
}

/// How many characters at the front of `s` are digits (`digits` is true) or
/// are not digits (`digits` is false).
pub open spec fn count_leading(s: Seq<char>, digits: bool) -> nat
    decreases s.len(),
{
    if s.len() > 0 && is_digit(s[0]) == digits {
        1 + count_leading(s.drop_first(), digits)
    } else {
        0
    }
}

/// The number written by the digits `s` in base ten; 0 for the empty
/// sequence. Leading zeros do not change the value.
pub open spec fn decimal_value(s: Seq<char>) -> nat
    decreases s.len(),
{
    if s.len() == 0 {
        0
    } else {
        10 * decimal_value(s.drop_last()) + digit_value(s.last())
    }
}

/// Ten to the power `k`.
pub open spec fn pow10(k: nat) -> nat
    decreases k,
{
    if k == 0 {
        1
    } else {
        10 * pow10((k - 1) as nat)
    }
}

/// Whether every character of `s` is a digit.
pub open spec fn all_digits(s: Seq<char>) -> bool {
    forall|i: int| 0 <= i < s.len() ==> is_digit(#[trigger] s[i])
}

/// `count_leading` is the first position at which the run ends.
pub proof fn lemma_count_leading(s: Seq<char>, digits: bool, n: int)
    requires
        0 <= n <= s.len(),
        forall|k: int| 0 <= k < n ==> is_digit(#[trigger] s[k]) == digits,
        n == s.len() || is_digit(s[n]) != digits,
    ensures
        count_leading(s, digits) == n,
    decreases n,
{
    if n > 0 {
        let rest = s.drop_first();
        assert forall|k: int| 0 <= k < n - 1 implies is_digit(#[trigger] rest[k]) == digits by {
            assert(rest[k] == s[k + 1]);
        }
        lemma_count_leading(rest, digits, n - 1);
    }
}

/// Appending digits never lowers the value: a prefix of `s` is worth at most
/// what `s` is worth.
pub proof fn lemma_decimal_value_prefix(s: Seq<char>, n: int)
    requires
        0 <= n <= s.len(),
    ensures
        decimal_value(s.take(n)) <= decimal_value(s),
    decreases s.len() - n,
{
    if n < s.len() {
        lemma_decimal_value_prefix(s.drop_last(), n);
        assert(s.drop_last().take(n) =~= s.take(n));
    } else {
        assert(s.take(n) =~= s);
    }
}

/// A power of ten is positive.
pub proof fn lemma_pow10_positive(k: nat)
    ensures
        pow10(k) > 0,
    decreases k,
{
    if k > 0 {
        lemma_pow10_positive((k - 1) as nat);
    }
}

/// Digits are worth less than the power of ten of their count.
pub proof fn lemma_decimal_value_bound(s: Seq<char>)
    requires
        all_digits(s),
    ensures
        decimal_value(s) < pow10(s.len()),
    decreases s.len(),
{
    if s.len() > 0 {
        let front = s.drop_last();
        assert forall|i: int| 0 <= i < front.len() implies is_digit(#[trigger] front[i]) by {
            assert(front[i] == s[i]);
        }
        lemma_decimal_value_bound(front);
        assert(is_digit(s[s.len() - 1]));
    }
}

/// Digits written behind other digits: the value of the first ones moves up
/// by one place for each digit that follows.
pub proof fn lemma_decimal_value_concat(a: Seq<char>, b: Seq<char>)
    ensures
        decimal_value(a + b) == decimal_value(a) * pow10(b.len()) + decimal_value(b),
    decreases b.len(),
{
    if b.len() == 0 {
        assert(a + b =~= a);
        let va = decimal_value(a) as int;
        let one = pow10(0) as int;
        assert(va * one == va) by (nonlinear_arith)
            requires
                one == 1,
        ;
    } else {
        let front = b.drop_last();
        assert((a + b).drop_last() =~= a + front);
        assert((a + b).last() == b.last());
        lemma_decimal_value_concat(a, front);
        let p = pow10(front.len()) as int;
        let va = decimal_value(a) as int;
        let vf = decimal_value(front) as int;
        let d = digit_value(b.last()) as int;
        assert(pow10(b.len()) == 10 * p);
        assert(10 * (va * p + vf) + d == va * (10 * p) + (10 * vf + d)) by (nonlinear_arith);
    }
}

/// The characters of `s`, in order.
pub fn chars_of(s: &str) -> (v: Vec<char>)
    ensures
        v@ == s@,
{
    let mut v: Vec<char> = Vec::new();
    for c in it: s.chars()
        invariant
            v@ == it.seq().take(it.index() as int),
    {
        v.push(c);
    }
    v
}

/// The value of `c` as a decimal digit, or `None` where it is not one.
pub fn to_digit(c: char) -> (d: Option<u8>)
    ensures
        match d {
            Some(v) => is_digit(c) && v == digit_value(c),
            None => !is_digit(c),
        },
{
    if '0' <= c && c <= '9' {
        Some((c as u32 - '0' as u32) as u8)
    } else {
        None
    }
}

/// The value of the decimal digit `c`.
pub(crate) fn digit_of(c: char) -> (v: u8)
    requires
        is_digit(c),
    ensures
        v == digit_value(c),
        v <= 9,
{
    (c as u32 - '0' as u32) as u8
}

/// Whether `pfx` stands at the front of `chars[from..to]`.
pub(crate) fn has_prefix_at(chars: &Vec<char>, from: usize, to: usize, pfx: &Vec<char>) -> (b: bool)
    requires
        from <= to <= chars.len(),
    ensures
        b == pfx@.is_prefix_of(chars@.subrange(from as int, to as int)),
{
    let n = pfx.len();
    if n > to - from {
        return false;
    }
    let ghost window = chars@.subrange(from as int, to as int);
    let mut i: usize = 0;
    while i < n
        invariant
            from <= to <= chars.len(),
            n == pfx.len(),
            n <= to - from,
            i <= n,
            window == chars@.subrange(from as int, to as int),
            forall|k: int| 0 <= k < i ==> pfx@[k] == window[k],
        decreases n - i,
    {
        if pfx[i] != chars[from + i] {
            assert(window[i as int] != pfx@[i as int]);
            assert(window.subrange(0, n as int)[i as int] == window[i as int]);
            return false;
        }
        i += 1;
    }
    assert(pfx@ =~= window.subrange(0, n as int));
    true
}

/// Whether two strings hold the same characters.
pub fn str_eq(a: &str, b: &str) -> (same: bool)
    ensures
        same == (a@ == b@),
{
    let x = chars_of(a);
    let y = chars_of(b);
    if x.len() != y.len() {
        return false;
    }
    let same = has_prefix_at(&x, 0, x.len(), &y);
    proof {
        assert(x@.subrange(0, x.len() as int) =~= x@);
        if same {
            assert(y@ =~= x@.subrange(0, y.len() as int));
        }
    }
    same
}

} // verus!
