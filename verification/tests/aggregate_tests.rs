use benchreport::aggregate::aggregate;
use benchreport::records::BenchmarkRecord;
use benchreport::value::MetricValue;

fn rec(revision: u32, id: &str, values_milli: &[i64]) -> BenchmarkRecord {
    let values = values_milli.iter().map(|m| MetricValue::from_milli(*m)).collect();
    BenchmarkRecord::new(revision, id.to_string(), values)
}

fn rec_raw(revision: u32, id: &str, values: Vec<MetricValue>) -> BenchmarkRecord {
    BenchmarkRecord::new(revision, id.to_string(), values)
}

#[test]
fn mean_over_repeated_runs() {
    let records = vec![
        rec(1, "a", &[10_000]),
        rec(1, "a", &[20_000]),
        rec(1, "b", &[5_000]),
        rec(2, "a", &[99_000]),
    ];
    let stats = aggregate(&records, 1, 1, None);
    assert_eq!(stats.len(), 2);
    assert_eq!(stats[0].testcase_id, "a");
    assert_eq!(stats[0].means, vec![MetricValue::Finite(15_000)]);
    assert_eq!(stats[1].testcase_id, "b");
    assert_eq!(stats[1].means, vec![MetricValue::Finite(5_000)]);
}

#[test]
fn aggregation_is_order_independent() {
    let a = vec![
        rec(1, "a", &[10_000]),
        rec(1, "a", &[20_000]),
        rec(1, "a", &[40_000]),
    ];
    let b = vec![
        rec(1, "a", &[40_000]),
        rec(1, "a", &[10_000]),
        rec(1, "a", &[20_000]),
    ];
    let sa = aggregate(&a, 1, 1, None);
    let sb = aggregate(&b, 1, 1, None);
    assert_eq!(sa.len(), 1);
    assert_eq!(sb.len(), 1);
    assert_eq!(sa[0].means, sb[0].means);
    assert_eq!(sa[0].means, vec![MetricValue::Finite(23_333)]);
}

#[test]
fn testcase_without_matching_records_is_absent() {
    let records = vec![rec(1, "a", &[10_000])];
    let stats = aggregate(&records, 2, 1, None);
    assert!(stats.is_empty());
}

#[test]
fn non_finite_run_poisons_only_its_metric() {
    let records = vec![
        rec_raw(1, "a", vec![MetricValue::Finite(10_000), MetricValue::NonFinite]),
        rec_raw(1, "a", vec![MetricValue::Finite(20_000), MetricValue::Finite(7_000)]),
    ];
    let stats = aggregate(&records, 1, 2, None);
    assert_eq!(stats.len(), 1);
    assert_eq!(
        stats[0].means,
        vec![MetricValue::Finite(15_000), MetricValue::NonFinite]
    );
}

#[test]
fn name_filter_matches_substrings() {
    let records = vec![
        rec(1, "suite\\testcases\\foo.ini", &[10_000]),
        rec(1, "suite\\testcases\\bar.ini", &[20_000]),
    ];
    let stats = aggregate(&records, 1, 1, Some("foo"));
    assert_eq!(stats.len(), 1);
    assert_eq!(stats[0].testcase_id, "suite\\testcases\\foo.ini");
}

#[test]
fn mean_rounds_to_nearest_thousandth() {
    // 1 and 2 average to 1.5 thousandths: rounds away from zero.
    let records = vec![rec(1, "a", &[1]), rec(1, "a", &[2])];
    let stats = aggregate(&records, 1, 1, None);
    assert_eq!(stats[0].means, vec![MetricValue::Finite(2)]);
    // Negative mean rounds away from zero as well.
    let records = vec![rec(1, "a", &[-1]), rec(1, "a", &[-2])];
    let stats = aggregate(&records, 1, 1, None);
    assert_eq!(stats[0].means, vec![MetricValue::Finite(-2)]);
}

#[test]
fn groups_appear_in_first_appearance_order() {
    let records = vec![
        rec(1, "c", &[1_000]),
        rec(1, "a", &[2_000]),
        rec(1, "c", &[3_000]),
        rec(1, "b", &[4_000]),
    ];
    let stats = aggregate(&records, 1, 1, None);
    let ids: Vec<&str> = stats.iter().map(|s| s.testcase_id.as_str()).collect();
    assert_eq!(ids, vec!["c", "a", "b"]);
}
