use memtrigger::{Ratio, Threshold, ThresholdError};

fn reached(total: u64, free: u64, percent: &str) -> bool {
    Threshold::parse(percent).unwrap().is_reached_by(&Ratio::of(total, free))
}

#[test]
fn numbers_with_an_exponent_between_0_and_100_are_thresholds() {
    for s in [
        "1e1", "5E0", "1e-3", "8E+1", "0.5e2", "5.e1", ".5e1", "99e0", "9.9e1", "9.999e+1",
        "1000e-2", "100e-1", "+1.5e+1", "0.000001e7", "1e-400", "0.0001e-400",
        "1e00000000000000000000000000001", "0000.1e0000002",
        "1e-99999999999999999999999999999999999999",
        "0.00000000000000000000000000000000000001e39",
        "990000000000000000000000000000000000000e-37",
    ] {
        assert!(Threshold::parse(s).is_ok(), "{}", s);
    }
}

#[test]
fn numbers_with_an_exponent_outside_the_range_are_out_of_range() {
    for s in [
        "1e2", "1e3", "10e1", "100e0", "1000e-1", "0.1e3", "99.99e1", "0e5", "0e-5", "0.0e0",
        ".0e1", "0.0e999999999999999999999999", "1e99999999999999999999999999999",
        "0.000000001e99999999999999999999999999999", "-1e1", "-1e-400", "-0e0",
        "0.00000000000000000000000000000000000001e40",
    ] {
        assert_eq!(Threshold::parse(s), Err(ThresholdError::OutOfRange), "{}", s);
    }
}

#[test]
fn acceptance_agrees_with_floating_point_away_from_the_bounds() {
    for s in [
        "1", "50", "99.5", "0", "100", "150", "-3", "1e1", "9e1", "1e2", "5E-1", "2.5e+1",
        "25e-1", "0.1e3", ".5", "5.", "5.e1", ".5e2", "+7", "1e", "e1", "1e+", ".e1", "", ".",
        "abc", "1e1e1", "1.2.3", "0x10", " 1", "1 ", "1e-5", "12345e-3", "12345e-2",
    ] {
        let expected = match s.parse::<f64>() {
            Ok(x) => x > 0f64 && x < 100f64,
            Err(_) => false,
        };
        assert_eq!(Threshold::parse(s).is_ok(), expected, "{:?}", s);
    }
}

#[test]
fn plain_decimals_between_0_and_100_are_thresholds() {
    for s in [
        "1", "50", "99", "99.99", "0.1", ".5", "5.", "+80", "+0.001", "007", "0099.9",
        "50.0000000000000000000000000000000000000001",
        "0.0000000000000000000000000000000000000001",
        "99.9999999999999999999999999999999999999999",
        "00000000000000000000000000000000000000000042",
    ] {
        assert!(Threshold::parse(s).is_ok(), "{}", s);
    }
}

#[test]
fn numbers_outside_the_range_are_out_of_range() {
    for s in [
        "0", "0.0", "0.", ".0", "+0", "-0", "000", "100", "100.0", "100.000", "150", "1000",
        "99999999999999999999999999", "-1", "-50", "-0.5", "-100", "+100",
        "100.0000000000000000000000000001",
    ] {
        assert_eq!(Threshold::parse(s), Err(ThresholdError::OutOfRange), "{}", s);
    }
}

#[test]
fn other_strings_are_malformed() {
    for s in [
        "", "+", "-", ".", "+.", "-.", "abc", "5%", " 50", "50 ", "5 0", "1.2.3", "1..2", "++5",
        "+-5", "5-", "inf", "nan", "NaN", "infinity", "0x10", "1_0", "5,5", "５０", ".e1",
        "5.5.", "1e", "1E", "e5", "E5", "e", "1e+", "1e-", "1e+-5", "1e5.0", "1e 5", "1 e5",
        "1ee1", "1e1e1", "1e1.", "+e1", ".e", "1x5", "1e５",
    ] {
        assert_eq!(Threshold::parse(s), Err(ThresholdError::Malformed), "{:?}", s);
    }
}

#[test]
fn clone_is_equal() {
    let t = Threshold::parse("12.345").unwrap();
    assert_eq!(t.clone(), t);
    let r = Ratio::of(1000, 877);
    assert_eq!(t.clone().is_reached_by(&r), t.is_reached_by(&r));
}

#[test]
fn ratio_above_threshold_reaches_it() {
    assert!(reached(1000, 200, "70"));
    assert!(reached(1000, 200, "79.999999"));
    assert!(reached(1000, 0, "99.9999999999999999999999"));
    assert!(reached(3, 2, "33.3333333333333333333"));
    assert!(reached(1, 0, "1"));
}

#[test]
fn ratio_equal_to_threshold_reaches_it() {
    assert!(reached(1000, 200, "80"));
    assert!(reached(1000, 200, "80."));
    assert!(reached(1000, 200, "80.0"));
    assert!(reached(1000, 200, "80.000000000000000000000000000000"));
    assert!(reached(1000, 200, "+080.00"));
    assert!(reached(8, 7, "12.5"));
    assert!(reached(2000, 1999, ".05"));
    assert!(reached(2, 1, "50"));
}

#[test]
fn ratio_below_threshold_does_not_reach_it() {
    assert!(!reached(1000, 200, "90"));
    assert!(!reached(1000, 200, "80.000000000000000000000000000001"));
    assert!(!reached(1000, 200, "80.1"));
    assert!(!reached(3, 2, "33.3333333333333333334"));
    assert!(!reached(3, 2, "33.34"));
    assert!(!reached(8, 7, "12.500001"));
}

#[test]
fn exponent_moves_the_decimal_point() {
    // 800 of 1000 in use: 80 %.
    for percent in ["8e1", "8E1", "8e+1", "0.8e2", "800e-1", "80e0", "80e-0", "0.00008e6", "80000000e-6"]
    {
        assert!(reached(1000, 200, percent), "{}", percent);
        assert!(!reached(1000, 201, percent), "{}", percent);
    }
    assert!(!reached(1000, 200, "8.0000000000000000000001e1"));
    assert!(reached(1000, 200, "7.9999999999999999999999e1"));
    assert!(reached(8, 7, "125e-1"));
    assert!(reached(8, 7, "0.0125e3"));
    assert!(!reached(8, 7, "1251e-2"));
}

#[test]
fn same_number_in_other_spelling_compares_the_same() {
    let spellings = ["12.5", "1.25e1", "125e-1", "0.125E+2", "1250e-2", "0012.500", ".0125e3"];
    for (total, free) in [(8u64, 7u64), (1000, 875), (1000, 876), (1000, 874), (3, 2), (1, 0), (5, 5)] {
        let expected = reached(total, free, "12.5");
        for s in spellings {
            assert_eq!(reached(total, free, s), expected, "{} {} {}", total, free, s);
        }
    }
}

#[test]
fn tiny_thresholds_are_reached_by_every_ratio_above_zero() {
    for percent in ["1e-30", "1e-400", "0.5e-99999999999999999999999999", "9e-21"] {
        assert!(reached(1000, 999, percent), "{}", percent);
        assert!(reached(u64::MAX, u64::MAX - 1, percent), "{}", percent);
        assert!(!reached(1000, 1000, percent), "{}", percent);
        assert!(!reached(0, 0, percent), "{}", percent);
        assert!(!reached(10, 11, percent), "{}", percent);
    }
    // One part in 2^64 - 1 is 5.42...e-18 percent.
    assert!(reached(u64::MAX, u64::MAX - 1, "5e-18"));
    assert!(reached(u64::MAX, u64::MAX - 1, "5.42101086242752217e-18"));
    assert!(!reached(u64::MAX, u64::MAX - 1, "5.42101086242752218e-18"));
    assert!(!reached(u64::MAX, u64::MAX - 1, "6e-18"));
}

#[test]
fn ratio_zero_reaches_no_threshold() {
    for percent in ["0.0000000000000000000000001", "1", "50", "99.9"] {
        assert!(!reached(0, 0, percent));
        assert!(!reached(0, 12345, percent));
        assert!(!reached(500, 500, percent));
    }
}

#[test]
fn negative_ratio_reaches_no_threshold() {
    for percent in ["0.0000000000000000000000001", "1", "99.9"] {
        assert!(!reached(100, 150, percent));
        assert!(!reached(1, u64::MAX, percent));
    }
}

#[test]
fn full_ratio_reaches_every_threshold() {
    for percent in ["0.0000001", "1", "50", "99.99999999999999999999999999999999"] {
        assert!(reached(1, 0, percent));
        assert!(reached(u64::MAX, 0, percent));
    }
}

#[test]
fn largest_totals_are_compared_without_overflow() {
    // (2^64 - 2) / (2^64 - 1) lies just under 100 %.
    assert!(reached(u64::MAX, 1, "99.999999999999999"));
    assert!(!reached(u64::MAX, 1, "99.99999999999999999999"));
    assert!(reached(u64::MAX, u64::MAX / 2, "50"));
    assert!(!reached(u64::MAX, u64::MAX / 2 + 1, "50"));
}

#[test]
fn comparison_agrees_with_integer_arithmetic() {
    // Thresholds with two decimals: used / total >= p / 10000.
    for total in [1u64, 3, 7, 10, 1000, 4096, 16316412] {
        for free in [0u64, 1, 2, 5, 9, 999, 2048, 8158206] {
            for p in [1u64, 50, 1234, 3333, 5000, 6667, 8000, 9999] {
                let text = format!("{}.{:02}", p / 100, p % 100);
                let used = total as i128 - free as i128;
                let expected = used * 10000 >= (p as i128) * (total as i128);
                assert_eq!(reached(total, free, &text), expected, "{} {} {}", total, free, text);
            }
        }
    }
}
