use memtrigger::ratio::MAX_TOTAL;
use memtrigger::{ComparationMode, MemoryStats, Ratio, UsageRatios};

fn value(r: &Ratio) -> f64 {
    r.numerator() as f64 / r.denominator() as f64
}

#[test]
fn ratio_is_used_over_total() {
    let r = Ratio::of(1000, 200);
    assert_eq!(r.numerator(), 800);
    assert_eq!(r.denominator(), 1000);
    assert_eq!(value(&r), 0.8);
}

#[test]
fn zero_total_gives_ratio_zero() {
    for free in [0u64, 1, 50, u64::MAX] {
        let r = Ratio::of(0, free);
        assert_eq!(r.numerator(), 0);
        assert_eq!(r.denominator(), 1);
        assert_eq!(value(&r), 0.0);
    }
}

#[test]
fn more_free_than_total_gives_a_negative_ratio() {
    let r = Ratio::of(100, 150);
    assert_eq!(r.numerator(), -50);
    assert_eq!(r.denominator(), 100);
}

#[test]
fn ratios_of_stats() {
    let stats =
        MemoryStats { mem_total: 1000, mem_available: 200, swap_total: 500, swap_free: 400 };
    let ratios = UsageRatios::from_stats(&stats);
    assert_eq!((ratios.ram.numerator(), ratios.ram.denominator()), (800, 1000));
    assert_eq!((ratios.swap.numerator(), ratios.swap.denominator()), (100, 500));
    assert_eq!((ratios.comb.numerator(), ratios.comb.denominator()), (900, 1500));
    assert_eq!(value(&ratios.ram), 0.8);
    assert_eq!(value(&ratios.swap), 0.2);
    assert_eq!(value(&ratios.comb), 0.6);
}

#[test]
fn all_zero_stats_give_all_zero_ratios() {
    let stats = MemoryStats { mem_total: 0, mem_available: 0, swap_total: 0, swap_free: 0 };
    let ratios = UsageRatios::from_stats(&stats);
    for r in [ratios.ram, ratios.swap, ratios.comb] {
        assert_eq!((r.numerator(), r.denominator()), (0, 1));
    }
}

#[test]
fn zero_guard_holds_for_each_pool_alone() {
    let stats = MemoryStats { mem_total: 0, mem_available: 7, swap_total: 10, swap_free: 4 };
    let ratios = UsageRatios::from_stats(&stats);
    assert_eq!(ratios.ram.numerator(), 0);
    assert_eq!((ratios.swap.numerator(), ratios.swap.denominator()), (6, 10));
    assert_eq!((ratios.comb.numerator(), ratios.comb.denominator()), (-1, 10));
}

#[test]
fn consistent_stats_give_ratios_in_the_unit_interval() {
    let cases = [
        (1u64, 0u64, 1u64, 1u64),
        (1000, 1000, 0, 0),
        (16316412, 8158206, 2097148, 1048574),
        (u64::MAX, 0, u64::MAX, u64::MAX),
    ];
    for (mt, ma, st, sf) in cases {
        let stats =
            MemoryStats { mem_total: mt, mem_available: ma, swap_total: st, swap_free: sf };
        let ratios = UsageRatios::from_stats(&stats);
        for r in [ratios.ram, ratios.swap, ratios.comb] {
            assert!(0 <= r.numerator());
            assert!(r.numerator() <= r.denominator());
        }
    }
}

#[test]
fn largest_totals_do_not_overflow() {
    let stats = MemoryStats {
        mem_total: u64::MAX,
        mem_available: 0,
        swap_total: u64::MAX,
        swap_free: 0,
    };
    let ratios = UsageRatios::from_stats(&stats);
    assert_eq!(ratios.comb.denominator(), 2 * (u64::MAX as i128));
    assert_eq!(ratios.comb.numerator(), 2 * (u64::MAX as i128));
    assert!(ratios.comb.denominator() <= MAX_TOTAL);
    let stats = MemoryStats {
        mem_total: 1,
        mem_available: u64::MAX,
        swap_total: 0,
        swap_free: u64::MAX,
    };
    let ratios = UsageRatios::from_stats(&stats);
    assert_eq!(ratios.comb.numerator(), 1 - 2 * (u64::MAX as i128));
    assert!(ratios.comb.numerator() >= -MAX_TOTAL);
}

#[test]
fn mode_selects_its_ratio() {
    let stats =
        MemoryStats { mem_total: 1000, mem_available: 200, swap_total: 500, swap_free: 400 };
    let ratios = UsageRatios::from_stats(&stats);
    assert_eq!(ratios.select(ComparationMode::RAM), ratios.ram);
    assert_eq!(ratios.select(ComparationMode::SWAP), ratios.swap);
    assert_eq!(ratios.select(ComparationMode::COMB), ratios.comb);
}
