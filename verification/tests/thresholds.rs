use weighted_code_coverage::decimal::{parse_count, parse_decimal, DecimalError};
use weighted_code_coverage::thresholds::{trim, ThresholdError, Thresholds};

fn decimal(s: &str) -> Result<u128, DecimalError> {
    parse_decimal(s.as_bytes(), 0, s.len())
}

#[test]
fn default_thresholds() {
    let t = Thresholds::default();
    assert_eq!(t.wcc_plain, 35_000_000);
    assert_eq!(t.wcc_quantized, 1_500_000);
    assert_eq!(t.crap, 35_000_000);
    assert_eq!(t.skunk, 30_000_000);
}

#[test]
fn default_text_gives_default_thresholds() {
    assert_eq!(Thresholds::parse(b"35.0,1.5,35.0,30.0"), Ok(Thresholds::default()));
}

#[test]
fn values_are_trimmed() {
    assert_eq!(
        Thresholds::parse(b" 1 ,\t2.5, 3\n,4 "),
        Ok(Thresholds {
            wcc_plain: 1_000_000,
            wcc_quantized: 2_500_000,
            crap: 3_000_000,
            skunk: 4_000_000
        })
    );
}

#[test]
fn wrong_number_of_values() {
    assert_eq!(Thresholds::parse(b""), Err(ThresholdError::Count));
    assert_eq!(Thresholds::parse(b"1,2,3"), Err(ThresholdError::Count));
    assert_eq!(Thresholds::parse(b"1,2,3,4,5"), Err(ThresholdError::Count));
    assert_eq!(Thresholds::parse(b"1,2,3,4,"), Err(ThresholdError::Count));
    assert_eq!(Thresholds::parse(b"x,2,3"), Err(ThresholdError::Count));
}

#[test]
fn value_that_is_no_number() {
    assert_eq!(
        Thresholds::parse(b"a,1,2,3"),
        Err(ThresholdError::Value { index: 0, reason: DecimalError::Malformed })
    );
    assert_eq!(
        Thresholds::parse(b"1,2,,3"),
        Err(ThresholdError::Value { index: 2, reason: DecimalError::Malformed })
    );
    assert_eq!(
        Thresholds::parse(b"1,2,3,4 5"),
        Err(ThresholdError::Value { index: 3, reason: DecimalError::Malformed })
    );
}

#[test]
fn negative_value() {
    assert_eq!(
        Thresholds::parse(b"1,-2,3,4"),
        Err(ThresholdError::Value { index: 1, reason: DecimalError::Negative })
    );
}

#[test]
fn leftmost_wrong_value_is_reported() {
    assert_eq!(
        Thresholds::parse(b"1,-2,x,4"),
        Err(ThresholdError::Value { index: 1, reason: DecimalError::Negative })
    );
}

#[test]
fn value_beyond_every_score_is_kept_as_the_largest_bound() {
    let big = "1,2,3,999999999999999999999999999999999999999";
    assert_eq!(
        Thresholds::parse(big.as_bytes()),
        Ok(Thresholds {
            wcc_plain: 1_000_000,
            wcc_quantized: 2_000_000,
            crap: 3_000_000,
            skunk: u128::MAX
        })
    );
    assert_eq!(Thresholds::parse(b"1e40,1e400,1e99999999999999999999999999999999999999999,0"),
        Ok(Thresholds { wcc_plain: u128::MAX, wcc_quantized: u128::MAX, crap: u128::MAX, skunk: 0 })
    );
}

#[test]
fn values_with_exponents() {
    assert_eq!(
        Thresholds::parse(b"3.5e1, 15E-1, 0.35e+2, 3000e-2"),
        Ok(Thresholds::default())
    );
    assert_eq!(
        "35,1.5,3.5e1,30".parse::<Thresholds>(),
        Ok(Thresholds::default())
    );
}

#[test]
fn decimal_forms() {
    assert_eq!(decimal("0"), Ok(0));
    assert_eq!(decimal("7"), Ok(7_000_000));
    assert_eq!(decimal("+7"), Ok(7_000_000));
    assert_eq!(decimal("1.5"), Ok(1_500_000));
    assert_eq!(decimal(".5"), Ok(500_000));
    assert_eq!(decimal("5."), Ok(5_000_000));
    assert_eq!(decimal("007.250"), Ok(7_250_000));
    assert_eq!(decimal("0.000001"), Ok(1));
    assert_eq!(decimal("-0"), Ok(0));
    assert_eq!(decimal("-0.000"), Ok(0));
}

#[test]
fn decimal_with_exponent() {
    assert_eq!(decimal("1e3"), Ok(1_000_000_000));
    assert_eq!(decimal("1E3"), Ok(1_000_000_000));
    assert_eq!(decimal("1e+3"), Ok(1_000_000_000));
    assert_eq!(decimal("1.5e3"), Ok(1_500_000_000));
    assert_eq!(decimal("1.5e0"), Ok(1_500_000));
    assert_eq!(decimal("1.5e-0"), Ok(1_500_000));
    assert_eq!(decimal("15e-1"), Ok(1_500_000));
    assert_eq!(decimal("123456e-6"), Ok(123_456));
    assert_eq!(decimal("123456e-7"), Ok(12_345));
    assert_eq!(decimal("123456e-12"), Ok(0));
    assert_eq!(decimal("123456e-13"), Ok(0));
    assert_eq!(decimal("1e-6"), Ok(1));
    assert_eq!(decimal("1e-7"), Ok(0));
    assert_eq!(decimal("9.99e-99999999999999999999999999999999999999999999"), Ok(0));
    assert_eq!(decimal(".5e1"), Ok(5_000_000));
    assert_eq!(decimal("5.e1"), Ok(50_000_000));
    assert_eq!(decimal("0.0000001234e7"), Ok(1_234_000));
    assert_eq!(decimal("000e000"), Ok(0));
    assert_eq!(decimal("1e0007"), Ok(10_000_000_000_000));
}

#[test]
fn decimal_agrees_with_the_float_of_the_same_text() {
    for text in ["35.0", "1.5", "30", "2.5e3", "125e-3", "0.000001", "7.", ".25", "1e10", "4.75E+2"] {
        let millionths = decimal(text).unwrap();
        let float: f64 = text.parse().unwrap();
        assert!((millionths as f64 / 1e6 - float).abs() <= 1e-6 * float.max(1.0));
    }
    for text in ["", "e", "1e", "abc", "1,5", "1_000", "--1", "+-1", "1..2"] {
        assert!(decimal(text).is_err());
        assert!(text.parse::<f64>().is_err());
    }
}

#[test]
fn decimal_rounds_towards_zero() {
    assert_eq!(decimal("0.1234567"), Ok(123_456));
    assert_eq!(decimal("0.9999999"), Ok(999_999));
    assert_eq!(decimal("0.0000009"), Ok(0));
}

#[test]
fn decimal_faults() {
    assert_eq!(decimal(""), Err(DecimalError::Malformed));
    assert_eq!(decimal("."), Err(DecimalError::Malformed));
    assert_eq!(decimal("+"), Err(DecimalError::Malformed));
    assert_eq!(decimal("e3"), Err(DecimalError::Malformed));
    assert_eq!(decimal("1e"), Err(DecimalError::Malformed));
    assert_eq!(decimal("1e+"), Err(DecimalError::Malformed));
    assert_eq!(decimal("1e-"), Err(DecimalError::Malformed));
    assert_eq!(decimal("1e1.5"), Err(DecimalError::Malformed));
    assert_eq!(decimal("1e1e1"), Err(DecimalError::Malformed));
    assert_eq!(decimal(".e1"), Err(DecimalError::Malformed));
    assert_eq!(decimal("1 e1"), Err(DecimalError::Malformed));
    assert_eq!(decimal("0x10"), Err(DecimalError::Malformed));
    assert_eq!(decimal("infinity"), Err(DecimalError::Malformed));
    assert_eq!(decimal("1.2.3"), Err(DecimalError::Malformed));
    assert_eq!(decimal("inf"), Err(DecimalError::Malformed));
    assert_eq!(decimal("NaN"), Err(DecimalError::Malformed));
    assert_eq!(decimal(" 1"), Err(DecimalError::Malformed));
    assert_eq!(decimal("--1"), Err(DecimalError::Malformed));
    assert_eq!(decimal("-1"), Err(DecimalError::Negative));
    assert_eq!(decimal("-0.0000001"), Err(DecimalError::Negative));
    assert_eq!(decimal("-1e-400"), Err(DecimalError::Negative));
    assert_eq!(decimal("-0e5"), Ok(0));
    assert_eq!(decimal("-x"), Err(DecimalError::Malformed));
}

#[test]
fn decimal_limit() {
    // u128::MAX = 340282366920938463463374607431768211455
    assert_eq!(decimal("340282366920938463463374607431768.211455"), Ok(u128::MAX));
    assert_eq!(decimal("340282366920938463463374607431768.211454"), Ok(u128::MAX - 1));
    assert_eq!(decimal("340282366920938463463374607431768.211456"), Ok(u128::MAX));
    assert_eq!(decimal("340282366920938463463374607431769"), Ok(u128::MAX));
    assert_eq!(decimal("1e32"), Ok(100_000_000_000_000_000_000_000_000_000_000_000_000));
    assert_eq!(decimal("1e33"), Ok(u128::MAX));
    assert_eq!(decimal("1e38"), Ok(u128::MAX));
    assert_eq!(decimal("1e39"), Ok(u128::MAX));
    assert_eq!(decimal("1e40"), Ok(u128::MAX));
    assert_eq!(decimal("0.000001e99999999999999999999999999999999999999999999"), Ok(u128::MAX));
    assert_eq!(decimal("0e99999999999999999999999999999999999999999999"), Ok(0));
}

#[test]
fn decimal_reads_the_given_range_only() {
    assert_eq!(parse_decimal(b"xx12.5yy", 2, 6), Ok(12_500_000));
}

#[test]
fn trim_bounds() {
    assert_eq!(trim(b"  ab  ", 0, 6), (2, 4));
    assert_eq!(trim(b"ab", 0, 2), (0, 2));
    assert_eq!(trim(b" \t\n\r", 0, 4), (4, 4));
    assert_eq!(trim(b"a b", 0, 3), (0, 3));
}

#[test]
fn hit_counts() {
    assert_eq!(parse_count(b"0"), Some(0));
    assert_eq!(parse_count(b"12"), Some(12));
    assert_eq!(parse_count(b"18446744073709551615"), Some(u64::MAX));
    assert_eq!(parse_count(b"18446744073709551616"), None);
    assert_eq!(parse_count(b""), None);
    assert_eq!(parse_count(b"-1"), None);
    assert_eq!(parse_count(b"1.0"), None);
    assert_eq!(parse_count(b"1e2"), None);
}
