//! Usage ratios, held as exact fractions.
//!
//! A ratio is the share of a pool of memory that is in use: what is not free,
//! over the total. It is kept as the two integers of that quotient, so that
//! nothing is rounded before it is compared.

use crate::meminfo::MemoryStats;
use vstd::prelude::*;

verus! {

/// The fraction `num / den`: the mathematical value of a usage ratio.
pub struct Fraction {
    pub num: int,
    pub den: int,
}

impl Fraction {
    /// The share of `total` that is not `free`. It is zero where `total` is
    /// zero, whatever `free` is.
    pub open spec fn used_share(total: int, free: int) -> Fraction {
        if total == 0 {
            Fraction { num: 0, den: 1 }
        } else {
            Fraction { num: total - free, den: total }
        }
    }

    /// The fraction is 0.
    pub open spec fn is_zero(self) -> bool {
        self.num == 0
    }

    /// The fraction lies between 0 and 1, both included.
    pub open spec fn in_unit_interval(self) -> bool {
        0 <= self.num <= self.den
    }
}

impl MemoryStats {
    /// Share of physical memory in use.
    pub open spec fn ram_ratio(self) -> Fraction {
        Fraction::used_share(self.mem_total as int, self.mem_available as int)
    }

    /// Share of swap space in use.
    pub open spec fn swap_ratio(self) -> Fraction {
        Fraction::used_share(self.swap_total as int, self.swap_free as int)
    }

    /// Share of physical memory and swap space together in use.
    pub open spec fn comb_ratio(self) -> Fraction {
        Fraction::used_share(
            self.mem_total + self.swap_total,
            self.mem_available + self.swap_free,
        )
    }
}

/// The largest total a ratio is built from: two `u64` added.
pub const MAX_TOTAL: i128 = 0x2_0000_0000_0000_0000;

/// A usage ratio. Its value is the fraction `self@`, whose denominator is
/// always positive.
#[derive(Clone, Copy, Debug, PartialEq, Eq)]
pub struct Ratio {
    used: i128,
    total: i128,
}

impl View for Ratio {
    type V = Fraction;

    closed spec fn view(&self) -> Fraction {
        Fraction { num: self.used as int, den: self.total as int }
    }
}

impl Ratio {
    #[verifier::type_invariant]
    spec fn bounded(self) -> bool {
        &&& 0 < self.total <= MAX_TOTAL
        &&& -MAX_TOTAL <= self.used <= self.total
    }

    /// The share of `total` that is not `free`; zero where `total` is zero.
    pub fn of(total: u64, free: u64) -> (r: Ratio)
        ensures
            r@ == Fraction::used_share(total as int, free as int),
    {
        Self::of_wide(total as u128, free as u128)
    }

    /// As `of`, for totals that are sums of two `u64`.
    fn of_wide(total: u128, free: u128) -> (r: Ratio)
        requires
            total <= MAX_TOTAL,
            free <= MAX_TOTAL,
        ensures
            r@ == Fraction::used_share(total as int, free as int),
    {
        if total == 0 {
            Ratio { used: 0, total: 1 }
        } else {
            Ratio { used: total as i128 - free as i128, total: total as i128 }
        }
    }

    /// The numerator of the fraction: the amount in use, which is negative
    /// where more is reported free than there is in total.
    pub fn numerator(&self) -> (n: i128)
        ensures
            n == self@.num,
            -MAX_TOTAL <= n <= self@.den,
    {
        proof {
            use_type_invariant(self);
        }
        self.used
    }

    /// The denominator of the fraction: the total, or 1 where the total is
    /// zero. It is positive.
    pub fn denominator(&self) -> (d: i128)
        ensures
            d == self@.den,
            0 < d <= MAX_TOTAL,
    {
        proof {
            use_type_invariant(self);
        }
        self.total
    }
}

/// The three ratios that a threshold can be held against.
#[derive(Clone, Copy, Debug, PartialEq, Eq)]
pub struct UsageRatios {
    pub ram: Ratio,
    pub swap: Ratio,
    pub comb: Ratio,
}

impl UsageRatios {
    /// The ratios of `stats`. A pool whose total is zero has ratio zero, and
    /// a pool that reports no more free than it has in total has a ratio
    /// between 0 and 1.
    pub fn from_stats(stats: &MemoryStats) -> (ratios: UsageRatios)
        ensures
            ratios.ram@ == stats.ram_ratio(),
            ratios.swap@ == stats.swap_ratio(),
            ratios.comb@ == stats.comb_ratio(),
            stats.mem_total == 0 ==> ratios.ram@.is_zero(),
            stats.swap_total == 0 ==> ratios.swap@.is_zero(),
            stats.mem_total + stats.swap_total == 0 ==> ratios.comb@.is_zero(),
            stats.mem_available <= stats.mem_total ==> ratios.ram@.in_unit_interval(),
            stats.swap_free <= stats.swap_total ==> ratios.swap@.in_unit_interval(),
            stats.mem_available + stats.swap_free <= stats.mem_total + stats.swap_total
                ==> ratios.comb@.in_unit_interval(),
    {
        UsageRatios {
            ram: Ratio::of(stats.mem_total, stats.mem_available),
            swap: Ratio::of(stats.swap_total, stats.swap_free),
            comb: Ratio::of_wide(
                stats.mem_total as u128 + stats.swap_total as u128,
                stats.mem_available as u128 + stats.swap_free as u128,
            ),
        }
    }
}

} // verus!
