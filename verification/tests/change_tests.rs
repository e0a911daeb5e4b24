use benchreport::change::{change_label, relative_change, to_style, ChangeResult};
use benchreport::value::MetricValue;

fn val(milli: i64) -> MetricValue {
    MetricValue::from_milli(milli)
}

#[test]
fn ten_percent_worse_is_regressed() {
    let c = relative_change(val(100_000), val(110_000));
    assert_eq!(c, ChangeResult::Regressed(100));
    assert_eq!(change_label(&c), "+10.0%");
}

#[test]
fn ten_percent_better_is_improved() {
    let c = relative_change(val(100_000), val(90_000));
    assert_eq!(c, ChangeResult::Improved(-100));
    assert_eq!(change_label(&c), "-10.0%");
}

#[test]
fn zero_reference_is_undefined() {
    for candidate in [1_i64, -7, 0, 1_000_000] {
        let c = relative_change(val(0), val(candidate));
        assert_eq!(c, ChangeResult::Undefined);
        assert_eq!(change_label(&c), "?");
    }
}

#[test]
fn zero_candidate_is_undefined() {
    let c = relative_change(val(100_000), val(0));
    assert_eq!(c, ChangeResult::Undefined);
}

#[test]
fn equal_values_are_neutral_zero() {
    let c = relative_change(val(100_000), val(100_000));
    assert_eq!(c, ChangeResult::Neutral(0));
    assert_eq!(change_label(&c), "0.0%");
}

#[test]
fn exactly_five_percent_is_neutral() {
    let c = relative_change(val(100_000), val(105_000));
    assert_eq!(c, ChangeResult::Neutral(50));
    assert_eq!(change_label(&c), "+5.0%");
}

#[test]
fn just_over_five_percent_is_regressed() {
    let c = relative_change(val(100_000), val(105_100));
    assert_eq!(c, ChangeResult::Regressed(51));
    assert_eq!(change_label(&c), "+5.1%");
}

#[test]
fn exactly_minus_five_percent_is_neutral() {
    let c = relative_change(val(100_000), val(95_000));
    assert_eq!(c, ChangeResult::Neutral(-50));
    assert_eq!(change_label(&c), "-5.0%");
}

#[test]
fn just_under_minus_five_percent_is_improved() {
    let c = relative_change(val(100_000), val(94_900));
    assert_eq!(c, ChangeResult::Improved(-51));
    assert_eq!(change_label(&c), "-5.1%");
}

#[test]
fn non_finite_values_are_undefined() {
    assert_eq!(
        relative_change(MetricValue::NonFinite, val(1_000)),
        ChangeResult::Undefined
    );
    assert_eq!(
        relative_change(val(1_000), MetricValue::NonFinite),
        ChangeResult::Undefined
    );
}

#[test]
fn out_of_domain_input_collapses_to_undefined() {
    assert_eq!(MetricValue::from_milli(i64::MAX), MetricValue::NonFinite);
    assert_eq!(
        relative_change(MetricValue::from_milli(i64::MAX), val(1_000)),
        ChangeResult::Undefined
    );
}

#[test]
fn style_marks_regressions_red() {
    assert_eq!(to_style(val(100_000), val(110_000)), "color:#e00;font-weight:bold");
}

#[test]
fn style_marks_improvements_green() {
    assert_eq!(to_style(val(100_000), val(90_000)), "color:#0a0;font-weight:bold");
}

#[test]
fn style_marks_neutral_grey() {
    assert_eq!(to_style(val(100_000), val(100_000)), "color:#aaa");
    assert_eq!(to_style(val(100_000), val(105_000)), "color:#aaa");
}

#[test]
fn style_marks_undefined_red() {
    assert_eq!(to_style(val(0), val(5_000)), "color:#e00;font-weight:bold");
    assert_eq!(
        to_style(MetricValue::NonFinite, val(5_000)),
        "color:#e00;font-weight:bold"
    );
}

#[test]
fn extreme_ratios_stay_exact() {
    // The largest admissible value against the smallest non-zero one.
    let c = relative_change(val(1), val(1_000_000_000_000_000));
    assert_eq!(c, ChangeResult::Regressed(999_999_999_999_999_000));
    let c = relative_change(val(1_000), val(10));
    assert_eq!(c, ChangeResult::Improved(-990));
    assert_eq!(change_label(&c), "-99.0%");
}

#[test]
fn rounding_is_to_nearest_tenth() {
    // 100.0 -> 101.23: +1.23%, displayed to one decimal.
    let c = relative_change(val(100_000), val(101_230));
    assert_eq!(c, ChangeResult::Neutral(12));
    assert_eq!(change_label(&c), "+1.2%");
    // 100.0 -> 101.25: half a tenth rounds away from zero.
    let c = relative_change(val(100_000), val(101_250));
    assert_eq!(c, ChangeResult::Neutral(13));
    assert_eq!(change_label(&c), "+1.3%");
}
