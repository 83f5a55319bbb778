//! Reading the kernel's memory statistics text.
//!
//! The text is a list of lines of the form `<Label>: <value> <unit>`. A field
//! is looked up by its label, and the first run of decimal digits after the
//! label is its value. A field that is missing or unreadable counts as 0.

use crate::text::{
    chars_of, count_leading, decimal_value, has_prefix_at, is_digit, lemma_count_leading,
    lemma_decimal_value_prefix, to_digit,
};
use vstd::prelude::*;

verus! {

/// Position of the first line feed in `s`; `s.len()` where there is none.
pub open spec fn line_feed_pos(s: Seq<char>) -> nat
    decreases s.len(),
{
    if s.len() == 0 || s[0] == '\n' {
        0
    } else {
        1 + line_feed_pos(s.drop_first())
    }
}

/// `line` without the carriage return at its end, if it has one.
pub open spec fn without_trailing_cr(line: Seq<char>) -> Seq<char> {
    if line.len() > 0 && line.last() == '\r' {
        line.drop_last()
    } else {
        line
    }
}

/// The lines of `text`. A line ends at a line feed, or at a carriage return
/// directly followed by one; neither belongs to the line. The last line needs
/// no line ending, and a text that ends with one has no empty line after it.
pub open spec fn lines_of(text: Seq<char>) -> Seq<Seq<char>>
    decreases text.len(),
{
    if text.len() == 0 {
        Seq::empty()
    } else {
        let n = line_feed_pos(text);
        if n < text.len() {
            seq![without_trailing_cr(text.take(n as int))] + lines_of(text.skip(n as int + 1))
        } else {
            seq![text]
        }
    }
}

/// The first of `lines` that begins with `pfx`.
pub open spec fn first_with_prefix(lines: Seq<Seq<char>>, pfx: Seq<char>) -> Option<Seq<char>>
    decreases lines.len(),
{
    if lines.len() == 0 {
        None
    } else if pfx.is_prefix_of(lines[0]) {
        Some(lines[0])
    } else {
        first_with_prefix(lines.drop_first(), pfx)
    }
}

/// The first maximal run of decimal digits in `line` behind its first `skip`
/// characters; empty where no digit follows them.
pub open spec fn digit_run(line: Seq<char>, skip: nat) -> Seq<char>
    recommends
        skip <= line.len(),
{
    let rest = line.skip(skip as int);
    let from = rest.skip(count_leading(rest, false) as int);
    from.take(count_leading(from, true) as int)
}

/// What a run of digits reads as: its value, unless the run is empty or the
/// value does not fit in an `i64`.
pub open spec fn parse_i64(digits: Seq<char>) -> Option<i64> {
    if digits.len() > 0 && decimal_value(digits) <= i64::MAX {
        Some(decimal_value(digits) as i64)
    } else {
        None
    }
}

/// The number found in the first line of `text` that begins with `pfx`.
pub open spec fn i64_in_line_starting_with(text: Seq<char>, pfx: Seq<char>) -> Option<i64> {
    match first_with_prefix(lines_of(text), pfx) {
        Some(line) => parse_i64(digit_run(line, pfx.len())),
        None => None,
    }
}

/// The value of the field `label`: the number found on its line, or 0.
pub open spec fn field_value(text: Seq<char>, label: Seq<char>) -> u64 {
    match i64_in_line_starting_with(text, label) {
        Some(v) => v as u64,
        None => 0,
    }
}

/// `line_feed_pos` is the first position that holds a line feed.
pub proof fn lemma_line_feed_pos(s: Seq<char>, n: int)
    requires
        0 <= n <= s.len(),
        forall|k: int| 0 <= k < n ==> #[trigger] s[k] != '\n',
        n == s.len() || s[n] == '\n',
    ensures
        line_feed_pos(s) == n,
    decreases n,
{
    if n > 0 {
        let rest = s.drop_first();
        assert forall|k: int| 0 <= k < n - 1 implies #[trigger] rest[k] != '\n' by {
            assert(rest[k] == s[k + 1]);
        }
        lemma_line_feed_pos(rest, n - 1);
    }
}

/// The first line of `text` whose content begins with `pfx`, compared
/// character by character.
pub fn find_line_starting_with<'a>(text: &'a str, pfx: &str) -> (line: Option<&'a str>)
    ensures
        match line {
            Some(l) => first_with_prefix(lines_of(text@), pfx@) == Some(l@) && pfx@.is_prefix_of(l@),
            None => first_with_prefix(lines_of(text@), pfx@) is None,
        },
{
    let chars = chars_of(text);
    let label = chars_of(pfx);
    let n = chars.len();
    let mut start: usize = 0;
    assert(text@.skip(0) =~= text@);
    while start < n
        invariant
            chars@ == text@,
            label@ == pfx@,
            n == chars.len(),
            start <= n,
            first_with_prefix(lines_of(text@), pfx@) == first_with_prefix(
                lines_of(text@.skip(start as int)),
                pfx@,
            ),
        decreases n - start,
    {
        let mut end = start;
        while end < n && chars[end] != '\n'
            invariant
                n == chars.len(),
                start <= end <= n,
                forall|k: int| start <= k < end ==> #[trigger] chars@[k] != '\n',
            decreases n - end,
        {
            end += 1;
        }
        let terminated = end < n;
        let stop = if terminated && end > start && chars[end - 1] == '\r' {
            end - 1
        } else {
            end
        };
        let found = has_prefix_at(&chars, start, stop, &label);
        proof {
            let rest = text@.skip(start as int);
            let line = text@.subrange(start as int, stop as int);
            let tail = lines_of(text@.skip(end + 1));
            assert forall|k: int| 0 <= k < end - start implies #[trigger] rest[k] != '\n' by {
                assert(rest[k] == chars@[start + k]);
            }
            lemma_line_feed_pos(rest, end - start);
            if terminated {
                assert(rest.take(end - start) =~= text@.subrange(start as int, end as int));
                assert(without_trailing_cr(rest.take(end - start)) =~= line);
                assert(rest.skip(end - start + 1) =~= text@.skip(end + 1));
                assert(lines_of(rest) == seq![line] + tail);
                assert((seq![line] + tail).drop_first() =~= tail);
            } else {
                assert(rest =~= line);
                assert(lines_of(rest) == seq![line]);
                assert(seq![line].drop_first() =~= Seq::<Seq<char>>::empty());
                assert(first_with_prefix(Seq::<Seq<char>>::empty(), pfx@) is None);
            }
        }
        if found {
            return Some(text.substring_char(start, stop));
        }
        if !terminated {
            return None;
        }
        start = end + 1;
    }
    assert(text@.skip(start as int) =~= Seq::<char>::empty());
    None
}

/// The number in the first line of `text` that begins with `pfx`: behind the
/// prefix, everything up to the first decimal digit is passed over, and the
/// digits that follow without a gap are read in base ten. `None` where no line
/// begins with `pfx`, where no digit follows it, or where the number is above
/// `i64::MAX`.
pub fn find_i64_in_line_starting_with(text: &str, pfx: &str) -> (value: Option<i64>)
    ensures
        value == i64_in_line_starting_with(text@, pfx@),
{
    let line = match find_line_starting_with(text, pfx) {
        Some(l) => chars_of(l),
        None => {
            return None;
        },
    };
    let skip = pfx.unicode_len();
    let n = line.len();
    let ghost rest = line@.skip(skip as int);
    let mut i = skip;
    while i < n && to_digit(line[i]).is_none()
        invariant
            n == line.len(),
            skip <= i <= n,
            forall|k: int| skip <= k < i ==> !is_digit(#[trigger] line@[k]),
        decreases n - i,
    {
        i += 1;
    }
    let ghost from = line@.skip(i as int);
    proof {
        assert forall|k: int| 0 <= k < i - skip implies !is_digit(
            #[trigger] rest[k],
        ) by {
            assert(rest[k] == line@[skip + k]);
        }
        lemma_count_leading(rest, false, i - skip);
        assert(rest.skip(i - skip) =~= from);
        assert(digit_run(line@, skip as nat) == from.take(count_leading(from, true) as int));
    }
    let first = i;
    let mut acc: i64 = 0;
    while i < n
        invariant
            n == line.len(),
            first <= i <= n,
            from == line@.skip(first as int),
            i64_in_line_starting_with(text@, pfx@) == parse_i64(
                from.take(count_leading(from, true) as int),
            ),
            forall|k: int| first <= k < i ==> is_digit(#[trigger] line@[k]),
            acc == decimal_value(from.take(i - first)),
        ensures
            i == n || !is_digit(line@[i as int]),
        decreases n - i,
    {
        let d = match to_digit(line[i]) {
            Some(d) => d,
            None => {
                break ;
            },
        };
        proof {
            let next = from.take(i - first + 1);
            assert(next.drop_last() =~= from.take(i - first));
            assert(next.last() == line@[i as int]);
        }
        if acc > (i64::MAX - d as i64) / 10 {
            proof {
                let end = count_leading(from, true) as int;
                assert forall|k: int| 0 <= k < i - first + 1 implies is_digit(#[trigger] from[k]) by {
                    assert(from[k] == line@[first + k]);
                }
                lemma_run_reaches(from, i - first + 1);
                lemma_decimal_value_prefix(from.take(end), i - first + 1);
                assert(from.take(end).take(i - first + 1) =~= from.take(i - first + 1));
            }
            return None;
        }
        acc = acc * 10 + d as i64;
        i += 1;
    }
    proof {
        assert forall|k: int| 0 <= k < i - first implies is_digit(
            #[trigger] from[k],
        ) by {
            assert(from[k] == line@[first + k]);
        }
        if i < n {
            assert(from[i - first] == line@[i as int]);
        }
        lemma_count_leading(from, true, i - first);
    }
    if i == first {
        None
    } else {
        Some(acc)
    }
}

/// Where the first `n` characters of `s` are digits, the leading run of
/// digits is at least that long.
proof fn lemma_run_reaches(s: Seq<char>, n: int)
    requires
        0 <= n <= s.len(),
        forall|k: int| 0 <= k < n ==> is_digit(#[trigger] s[k]),
    ensures
        n <= count_leading(s, true) <= s.len(),
    decreases s.len(),
{
    if s.len() > 0 && is_digit(s[0]) {
        let rest = s.drop_first();
        if n > 0 {
            assert forall|k: int| 0 <= k < n - 1 implies is_digit(
                #[trigger] rest[k],
            ) by {
                assert(rest[k] == s[k + 1]);
            }
            lemma_run_reaches(rest, n - 1);
        } else {
            lemma_run_reaches(rest, 0);
        }
    }
}

/// The four fields of the memory statistics, in kibibytes.
#[derive(Clone, Copy, Debug, PartialEq, Eq, Structural)]
pub struct MemoryStats {
    pub mem_total: u64,
    pub mem_available: u64,
    pub swap_total: u64,
    pub swap_free: u64,
}

impl MemoryStats {
    /// The statistics that `text` holds: each field is the number on the first
    /// line that begins with its label, or 0.
    pub open spec fn of_text(text: Seq<char>) -> MemoryStats {
        MemoryStats {
            mem_total: field_value(text, "MemTotal:"@),
            mem_available: field_value(text, "MemAvailable:"@),
            swap_total: field_value(text, "SwapTotal:"@),
            swap_free: field_value(text, "SwapFree:"@),
        }
    }

    /// Reads the four fields out of `text`. The result depends on the
    /// characters of `text` and on nothing else; a field that is missing or
    /// unreadable is 0.
    pub fn parse(text: &str) -> (stats: MemoryStats)
        ensures
            stats == Self::of_text(text@),
    {
        MemoryStats {
            mem_total: read_field(text, "MemTotal:"),
            mem_available: read_field(text, "MemAvailable:"),
            swap_total: read_field(text, "SwapTotal:"),
            swap_free: read_field(text, "SwapFree:"),
        }
    }
}

/// The value of the field `label` in `text`, 0 where it cannot be read.
pub fn read_field(text: &str, label: &str) -> (value: u64)
    ensures
        value == field_value(text@, label@),
{
    match find_i64_in_line_starting_with(text, label) {
        Some(v) => v as u64,
        None => 0,
    }
}

} // verus!
