//! What holds of the library as a whole, proved from its definitions.

use crate::args::checked;
use crate::engine::{concluded, planned, settled, ChildReport, Outcome, Planned};
use crate::meminfo::MemoryStats;
use crate::ratio::{Fraction, UsageRatios};
use crate::text::{decimal_value, pow10};
use crate::threshold::{
    decimal_from, digits_after_point, digits_before_point, lemma_zeros_around, zeros, Decimal,
};
use vstd::prelude::*;

verus! {

/// Reading the statistics is a function of the text: texts with the same
/// characters hold the same four numbers.
pub proof fn same_text_same_stats(a: Seq<char>, b: Seq<char>)
    requires
        a == b,
    ensures
        MemoryStats::of_text(a) == MemoryStats::of_text(b),
{
}

/// A pool whose total is zero has the ratio zero, whatever it reports free.
pub proof fn zero_total_zero_ratio(stats: MemoryStats)
    ensures
        stats.mem_total == 0 ==> stats.ram_ratio().is_zero(),
        stats.swap_total == 0 ==> stats.swap_ratio().is_zero(),
        stats.mem_total == 0 && stats.swap_total == 0 ==> stats.comb_ratio().is_zero(),
{
}

/// A pool that reports no more free than it has in total has a ratio between
/// 0 and 1.
pub proof fn consistent_stats_bounded_ratio(stats: MemoryStats)
    ensures
        stats.mem_available <= stats.mem_total ==> stats.ram_ratio().in_unit_interval(),
        stats.swap_free <= stats.swap_total ==> stats.swap_ratio().in_unit_interval(),
        stats.mem_available + stats.swap_free <= stats.mem_total + stats.swap_total
            ==> stats.comb_ratio().in_unit_interval(),
{
}

/// A ratio is either below a threshold or has reached it, never both, and a
/// ratio that equals the threshold has reached it.
pub proof fn reached_is_not_below(ratio: Fraction, percent: Decimal)
    ensures
        ratio.reaches(percent) == !ratio.is_below(percent),
        ratio.equals(percent) ==> ratio.reaches(percent),
{
}

/// Where the arguments are valid and the selected ratio equals the threshold,
/// the command is run: the comparison is not strict.
pub proof fn ratio_at_threshold_executes(args: Seq<Seq<char>>, ratios: UsageRatios)
    requires
        checked(args) is Ok,
        ratios.selected(checked(args)->Ok_0.mode)@.equals(checked(args)->Ok_0.threshold),
    ensures
        planned(args, ratios) == Planned::Execute(args[3]),
{
}

/// Where the arguments are valid and the selected ratio is below the
/// threshold, no command is run and the run ends with status 0.
pub proof fn ratio_below_threshold_is_idle(args: Seq<Seq<char>>, ratios: UsageRatios)
    requires
        checked(args) is Ok,
        ratios.selected(checked(args)->Ok_0.mode)@.is_below(checked(args)->Ok_0.threshold),
    ensures
        planned(args, ratios) == Planned::Skip,
        settled(planned(args, ratios)) == Some(Outcome::ConditionNotMet),
        Outcome::ConditionNotMet.status() == 0,
{
}

/// A run whose command exited with a code ends with that code, whatever the
/// code is.
pub proof fn exit_code_is_carried_over(code: i32)
    ensures
        concluded(ChildReport::Exited(code)).status() == code,
{
}

/// The exponent stands for a power of ten: with the exponent 0 the number is
/// the one that the digits and the decimal point write, and each step of the
/// exponent multiplies the number by ten.
pub proof fn exponent_is_a_power_of_ten(digits: Seq<char>, w: int, e: int)
    requires
        0 <= w <= digits.len(),
    ensures
        decimal_from(digits, w, 0).scaled == decimal_value(digits),
        decimal_from(digits, w, 0).scale == digits.len() - w,
        decimal_from(digits, w, e + 1).scaled * pow10(decimal_from(digits, w, e).scale) == 10
            * decimal_from(digits, w, e).scaled * pow10(decimal_from(digits, w, e + 1).scale),
{
    assert(digits_before_point(digits, w, 0) + digits_after_point(digits, w, 0) =~= digits) by {
        if w == 0 {
            assert(zeros(0) + digits =~= digits);
        }
    }
    let p = w + e;
    let m = decimal_value(digits) as int;
    let now = decimal_from(digits, w, e);
    let next = decimal_from(digits, w, e + 1);
    if p < 0 {
        lemma_zeros_around(digits, (-p) as nat);
        lemma_zeros_around(digits, (-p - 1) as nat);
        assert(digits_before_point(digits, w, e) + digits_after_point(digits, w, e) =~= zeros(
            (-p) as nat,
        ) + digits);
        assert(digits_before_point(digits, w, e + 1) + digits_after_point(digits, w, e + 1)
            =~= zeros((-p - 1) as nat) + digits);
        let q = pow10(next.scale) as int;
        assert(pow10(now.scale) == 10 * q);
        assert(m * (10 * q) == 10 * m * q) by (nonlinear_arith);
    } else if p < digits.len() {
        assert(digits_before_point(digits, w, e + 1) + digits_after_point(digits, w, e + 1)
            =~= digits);
        assert(digits_before_point(digits, w, e) + digits_after_point(digits, w, e) =~= digits)
            by {
            if p == 0 {
                assert(zeros(0) + digits =~= digits);
            }
        }
        let q = pow10(next.scale) as int;
        assert(pow10(now.scale) == 10 * q);
        assert(m * (10 * q) == 10 * m * q) by (nonlinear_arith);
    } else {
        let n = (p - digits.len()) as nat;
        lemma_zeros_around(digits, n);
        lemma_zeros_around(digits, n + 1);
        assert(digits_before_point(digits, w, e) + digits_after_point(digits, w, e) =~= digits
            + zeros(n)) by {
            if n == 0 {
                assert(digits.take(p) =~= digits);
                assert(digits.skip(p) =~= Seq::<char>::empty());
            }
        }
        assert(digits_before_point(digits, w, e + 1) + digits_after_point(digits, w, e + 1)
            =~= digits + zeros(n + 1));
        let q = pow10(n) as int;
        assert(pow10(n + 1) == 10 * q);
        assert(pow10(0) == 1);
        assert((m * (10 * q)) * 1 == 10 * (m * q) * 1) by (nonlinear_arith);
    }
}

} // verus!
