use benchreport::change::ChangeResult;
use benchreport::compare::compare;
use benchreport::records::BenchmarkRecord;
use benchreport::rows::SortCriterion;
use benchreport::value::MetricValue;

fn rec(revision: u32, id: &str, values_milli: &[i64]) -> BenchmarkRecord {
    let values = values_milli.iter().map(|m| MetricValue::from_milli(*m)).collect();
    BenchmarkRecord::new(revision, id.to_string(), values)
}

#[test]
fn join_is_a_true_intersection() {
    let records = vec![
        rec(1, "only_low", &[10_000]),
        rec(1, "both", &[10_000]),
        rec(2, "both", &[12_000]),
        rec(2, "only_high", &[9_000]),
    ];
    let rows = compare(&records, 1, 2, 1, SortCriterion::Name);
    assert_eq!(rows.len(), 1);
    assert_eq!(rows[0].testcase_id, "both");
}

#[test]
fn end_to_end_two_runs_against_one() {
    let records = vec![
        rec(1, "a", &[10_000]),
        rec(1, "a", &[10_000]),
        rec(2, "a", &[11_000]),
    ];
    let rows = compare(&records, 1, 2, 1, SortCriterion::Name);
    assert_eq!(rows.len(), 1);
    assert_eq!(rows[0].name, "a");
    assert_eq!(rows[0].low, vec![MetricValue::Finite(10_000)]);
    assert_eq!(rows[0].high, vec![MetricValue::Finite(11_000)]);
    assert_eq!(rows[0].changes, vec![ChangeResult::Regressed(100)]);
}

#[test]
fn name_sort_orders_normalized_names() {
    let records = vec![
        rec(1, "x\\testcases\\bbb.ini", &[10_000]),
        rec(2, "x\\testcases\\bbb.ini", &[10_000]),
        rec(1, "y\\testcases\\aaa.ini", &[10_000]),
        rec(2, "y\\testcases\\aaa.ini", &[10_000]),
    ];
    let rows = compare(&records, 1, 2, 1, SortCriterion::Name);
    assert_eq!(rows.len(), 2);
    assert_eq!(rows[0].name, "aaa.ini");
    assert_eq!(rows[1].name, "bbb.ini");
    for w in rows.windows(2) {
        assert!(w[0].name <= w[1].name);
    }
}

#[test]
fn metric_sort_puts_most_regressed_first() {
    // Ratios low/high: worse = smaller ratio, so regressions sort first.
    let records = vec![
        rec(1, "steady", &[10_000]),
        rec(2, "steady", &[10_000]),
        rec(1, "regressed", &[10_000]),
        rec(2, "regressed", &[20_000]),
        rec(1, "improved", &[10_000]),
        rec(2, "improved", &[5_000]),
    ];
    let rows = compare(&records, 1, 2, 1, SortCriterion::Metric(0));
    let names: Vec<&str> = rows.iter().map(|r| r.name.as_str()).collect();
    assert_eq!(names, vec!["regressed", "steady", "improved"]);
}

#[test]
fn metric_sort_puts_undefined_ratios_first() {
    let records = vec![
        rec(1, "ok", &[10_000]),
        rec(2, "ok", &[20_000]),
        rec(1, "dropped_to_zero", &[10_000]),
        rec(2, "dropped_to_zero", &[0]),
    ];
    let rows = compare(&records, 1, 2, 1, SortCriterion::Metric(0));
    assert_eq!(rows[0].name, "dropped_to_zero");
    assert_eq!(rows[1].name, "ok");
}

#[test]
fn zero_low_mean_keeps_row_with_undefined_cell() {
    let records = vec![
        rec(1, "a", &[0, 4_000]),
        rec(2, "a", &[5_000, 8_000]),
    ];
    let rows = compare(&records, 1, 2, 2, SortCriterion::Name);
    assert_eq!(rows.len(), 1);
    assert_eq!(rows[0].changes[0], ChangeResult::Undefined);
    assert_eq!(rows[0].changes[1], ChangeResult::Regressed(1000));
}

#[test]
fn comparing_a_revision_with_itself_is_neutral() {
    let records = vec![rec(1, "a", &[10_000])];
    let rows = compare(&records, 1, 1, 1, SortCriterion::Name);
    assert_eq!(rows.len(), 1);
    assert_eq!(rows[0].changes, vec![ChangeResult::Neutral(0)]);
}

#[test]
fn rows_join_on_raw_identifier_before_normalization() {
    // Two raw paths normalize to the same display name but stay
    // separate rows, joined each on its own raw identifier.
    let records = vec![
        rec(1, "x\\testcases\\same.ini", &[10_000]),
        rec(2, "x\\testcases\\same.ini", &[11_000]),
        rec(1, "y\\testcases\\same.ini", &[20_000]),
        rec(2, "y\\testcases\\same.ini", &[19_000]),
    ];
    let rows = compare(&records, 1, 2, 1, SortCriterion::Name);
    assert_eq!(rows.len(), 2);
    assert_eq!(rows[0].name, "same.ini");
    assert_eq!(rows[1].name, "same.ini");
    assert_ne!(rows[0].testcase_id, rows[1].testcase_id);
}
