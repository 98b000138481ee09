use weighted_code_coverage::classify::is_complex;
use weighted_code_coverage::formulas::{coverage, uncovered, weight, Scores, CUT_POINT, ONE};
use weighted_code_coverage::thresholds::Thresholds;

#[test]
fn two_of_three_lines_covered() {
    let cov = coverage(3, 2);
    assert_eq!(cov, 666_666);
    let s = Scores::compute(4, cov);
    assert_eq!(s.wcc_plain, 1_333_336);
    assert_eq!(s.wcc_quantized, 333_334);
    assert_eq!(s.crap, 4_592_596);
    assert_eq!(s.skunk, 53_333);
}

#[test]
fn scores_close_to_the_real_values() {
    let s = Scores::compute(4, coverage(3, 2));
    let plain = s.wcc_plain as f64 / 1e6;
    let crap = s.crap as f64 / 1e6;
    assert!((plain - 1.33).abs() < 0.01);
    assert!((crap - 4.59).abs() < 0.01);
}

#[test]
fn nothing_covered_gives_the_worst_scores() {
    for comp in [0u32, 1, 4, 15, 16, 25, 1000, u32::MAX] {
        let s = Scores::compute(comp, 0);
        let c = comp as u128;
        assert_eq!(s.wcc_plain, c * 1_000_000);
        assert_eq!(s.crap, (c * c + c) * 1_000_000);
        assert_eq!(s.skunk * 25, c * 1_000_000);
        assert!(s.wcc_quantized <= 2_000_000);
    }
}

#[test]
fn everything_covered_leaves_the_complexity() {
    for comp in [0u32, 1, 4, 15, 16, 25, 1000, u32::MAX] {
        let s = Scores::compute(comp, ONE);
        assert_eq!(s.wcc_plain, 0);
        assert_eq!(s.wcc_quantized, 0);
        assert_eq!(s.skunk, 0);
        assert_eq!(s.crap, comp as u128 * 1_000_000);
    }
}

#[test]
fn scores_fall_as_coverage_rises() {
    let mut last = Scores::compute(37, 0);
    for covered in 1..=50u64 {
        let s = Scores::compute(37, coverage(50, covered));
        assert!(s.wcc_plain <= last.wcc_plain);
        assert!(s.wcc_quantized <= last.wcc_quantized);
        assert!(s.crap <= last.crap);
        assert!(s.skunk <= last.skunk);
        last = s;
    }
}

#[test]
fn coverage_is_clamped_to_one() {
    assert_eq!(coverage(3, 7), ONE);
    assert_eq!(coverage(u64::MAX, u64::MAX), ONE);
    assert_eq!(uncovered(ONE + 5), 0);
    let s = Scores::compute(9, ONE + 5);
    assert_eq!(s, Scores::compute(9, ONE));
}

#[test]
fn coverage_without_coverable_lines_is_zero() {
    assert_eq!(coverage(0, 0), 0);
    assert_eq!(coverage(0, 9), 0);
}

#[test]
fn coverage_rounds_down() {
    assert_eq!(coverage(3, 1), 333_333);
    assert_eq!(coverage(7, 6), 857_142);
    assert_eq!(coverage(2, 1), 500_000);
}

#[test]
fn weight_doubles_above_the_cut_point() {
    assert_eq!(CUT_POINT, 15);
    assert_eq!(weight(0), 1);
    assert_eq!(weight(15), 1);
    assert_eq!(weight(16), 2);
    assert_eq!(Scores::compute(15, 0).wcc_quantized, 1_000_000);
    assert_eq!(Scores::compute(16, 0).wcc_quantized, 2_000_000);
    assert_eq!(Scores::compute(16, 250_000).wcc_quantized, 1_500_000);
}

#[test]
fn skunk_is_a_twenty_fifth_of_the_plain_score() {
    assert_eq!(Scores::compute(25, 0).skunk, 1_000_000);
    assert_eq!(Scores::compute(50, 500_000).skunk, 1_000_000);
    assert_eq!(Scores::compute(1, 0).skunk, 40_000);
}

#[test]
fn crap_of_half_covered_unit() {
    // 10^2 * 0.5^3 + 10 = 22.5
    assert_eq!(Scores::compute(10, 500_000).crap, 22_500_000);
}

#[test]
fn complex_when_any_score_is_strictly_above() {
    let t = Thresholds { wcc_plain: 10, wcc_quantized: 10, crap: 10, skunk: 10 };
    let at = Scores { wcc_plain: 10, wcc_quantized: 10, crap: 10, skunk: 10 };
    assert!(!is_complex(&at, &t));
    assert!(is_complex(&Scores { wcc_plain: 11, ..at }, &t));
    assert!(is_complex(&Scores { wcc_quantized: 11, ..at }, &t));
    assert!(is_complex(&Scores { crap: 11, ..at }, &t));
    assert!(is_complex(&Scores { skunk: 11, ..at }, &t));
}

#[test]
fn zero_bounds_flag_every_positive_score() {
    let zero = Thresholds { wcc_plain: 0, wcc_quantized: 0, crap: 0, skunk: 0 };
    assert!(!is_complex(&Scores::compute(0, ONE), &zero));
    assert!(is_complex(&Scores::compute(1, ONE), &zero));
    assert!(is_complex(&Scores::compute(0, 0), &zero));
}
