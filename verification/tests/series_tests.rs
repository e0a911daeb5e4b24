use benchreport::graphs::{
    api_all_graph_json, api_file_graph_json, AllGraphRequest, FileGraphRequest, RequestError,
};
use benchreport::records::BenchmarkRecord;
use benchreport::series::{series_for_metric, series_for_testcase};
use benchreport::value::MetricValue;

fn rec(revision: u32, id: &str, values_milli: &[i64]) -> BenchmarkRecord {
    let values = values_milli.iter().map(|m| MetricValue::from_milli(*m)).collect();
    BenchmarkRecord::new(revision, id.to_string(), values)
}

#[test]
fn first_point_normalizes_to_one() {
    let records = vec![rec(1, "a", &[10_000]), rec(2, "a", &[5_000])];
    let points = series_for_testcase(&records, "a", 0, 1, 0);
    assert_eq!(points.len(), 2);
    assert_eq!(points[0].raw_value, MetricValue::Finite(10_000));
    assert_eq!(points[0].normalized_value, MetricValue::Finite(1000));
    assert_eq!(points[1].normalized_value, MetricValue::Finite(500));
}

#[test]
fn zero_reference_marks_normalization_undefined() {
    let records = vec![rec(1, "a", &[0]), rec(2, "a", &[5_000])];
    let points = series_for_testcase(&records, "a", 0, 1, 0);
    assert_eq!(points[0].normalized_value, MetricValue::NonFinite);
    assert_eq!(points[1].normalized_value, MetricValue::NonFinite);
}

#[test]
fn series_respects_the_revision_floor() {
    let records = vec![rec(1, "a", &[10_000]), rec(5, "a", &[20_000])];
    let points = series_for_testcase(&records, "a", 0, 1, 5);
    assert_eq!(points.len(), 1);
    assert_eq!(points[0].revision, 5);
}

#[test]
fn series_revisions_are_sorted_and_deduplicated() {
    let records = vec![
        rec(3, "a", &[30_000]),
        rec(1, "a", &[10_000]),
        rec(3, "a", &[50_000]),
        rec(2, "a", &[20_000]),
    ];
    let points = series_for_testcase(&records, "a", 0, 1, 0);
    let revs: Vec<u32> = points.iter().map(|p| p.revision).collect();
    assert_eq!(revs, vec![1, 2, 3]);
    // Repeated runs at one revision average.
    assert_eq!(points[2].raw_value, MetricValue::Finite(40_000));
}

#[test]
fn all_metric_series_share_a_sorted_label_axis() {
    let records = vec![
        rec(3, "a", &[30_000]),
        rec(1, "a", &[10_000]),
        rec(2, "b", &[20_000]),
        rec(3, "b", &[30_000]),
    ];
    let data = series_for_metric(&records, 0, 1, 1, 3);
    assert_eq!(data.labels, vec![1, 2, 3]);
    assert_eq!(data.datasets.len(), 2);
    assert_eq!(data.datasets[0].testcase_id, "a");
    assert_eq!(data.datasets[1].testcase_id, "b");
}

#[test]
fn each_testcase_normalizes_against_its_own_first_point() {
    let records = vec![
        rec(1, "a", &[10_000]),
        rec(3, "a", &[20_000]),
        rec(2, "b", &[40_000]),
        rec(3, "b", &[10_000]),
    ];
    let data = series_for_metric(&records, 0, 1, 1, 3);
    let a = &data.datasets[0];
    assert_eq!(a.points[0].normalized_value, MetricValue::Finite(1000));
    assert_eq!(a.points[1].normalized_value, MetricValue::Finite(2000));
    let b = &data.datasets[1];
    assert_eq!(b.points[0].normalized_value, MetricValue::Finite(1000));
    assert_eq!(b.points[1].normalized_value, MetricValue::Finite(250));
}

#[test]
fn each_dataset_lists_its_revisions_ascending() {
    let records = vec![
        rec(3, "a", &[30_000]),
        rec(1, "a", &[10_000]),
        rec(2, "a", &[20_000]),
        rec(3, "b", &[5_000]),
        rec(2, "b", &[40_000]),
    ];
    let data = series_for_metric(&records, 0, 1, 1, 3);
    let a_revs: Vec<u32> = data.datasets[0].points.iter().map(|p| p.revision).collect();
    assert_eq!(a_revs, vec![1, 2, 3]);
    let b_revs: Vec<u32> = data.datasets[1].points.iter().map(|p| p.revision).collect();
    assert_eq!(b_revs, vec![2, 3]);
    // The reference is the earliest in-range point of each testcase.
    assert_eq!(data.datasets[0].points[0].normalized_value, MetricValue::Finite(1000));
    assert_eq!(data.datasets[1].points[0].raw_value, MetricValue::Finite(40_000));
    assert_eq!(data.datasets[1].points[1].normalized_value, MetricValue::Finite(125));
}

#[test]
fn range_restricts_the_all_metric_series() {
    let records = vec![
        rec(1, "a", &[10_000]),
        rec(2, "a", &[20_000]),
        rec(9, "a", &[90_000]),
    ];
    let data = series_for_metric(&records, 0, 1, 2, 8);
    assert_eq!(data.labels, vec![2]);
    assert_eq!(data.datasets.len(), 1);
    assert_eq!(data.datasets[0].points.len(), 1);
    assert_eq!(data.datasets[0].points[0].revision, 2);
}

#[test]
fn file_graph_uses_the_category_metrics() {
    // Table layout: run time is column 0, memory column 1.
    let records = vec![
        rec(800_001, "s\\testcases\\foo.ini", &[10_000, 1_000_000]),
        rec(800_002, "s\\testcases\\foo.ini", &[12_000, 2_000_000]),
    ];
    let query = FileGraphRequest { id: "foo.ini".to_string() };
    let data = api_file_graph_json(&records, "csb", &query).unwrap();
    assert_eq!(data.labels, vec![800_001, 800_002]);
    assert_eq!(data.datasets.len(), 2);
    assert_eq!(data.datasets[0].label, "Memory");
    assert_eq!(data.datasets[0].points[0].raw_value, MetricValue::Finite(1_000_000));
    assert_eq!(data.datasets[1].label, "Run Time");
    assert_eq!(data.datasets[1].points[1].raw_value, MetricValue::Finite(12_000));
}

#[test]
fn unknown_category_is_a_client_error() {
    let records: Vec<BenchmarkRecord> = Vec::new();
    let query = FileGraphRequest { id: "foo".to_string() };
    let r = api_file_graph_json(&records, "exe", &query);
    assert!(matches!(r, Err(RequestError::UnsupportedCategory)));
}

#[test]
fn all_graph_selects_the_keyed_column() {
    // Scenario table layout: cutting time 0, draw time 1, memory 2.
    let records = vec![
        rec(800_001, "a.ini", &[1_000, 2_000, 3_000]),
        rec(800_002, "a.ini", &[1_100, 4_000, 3_300]),
    ];
    let query = AllGraphRequest { r1: 800_001, r2: 800_002 };
    let data = api_all_graph_json(&records, "ini_draw_time", &query).unwrap();
    assert_eq!(data.labels, vec![800_001, 800_002]);
    assert_eq!(data.datasets.len(), 1);
    assert_eq!(data.datasets[0].label, "a.ini");
    assert_eq!(data.datasets[0].points[0].raw_value, MetricValue::Finite(2_000));
    assert_eq!(data.datasets[0].points[1].raw_value, MetricValue::Finite(4_000));
    assert_eq!(data.datasets[0].points[1].normalized_value, MetricValue::Finite(2000));
}

#[test]
fn unknown_metric_key_is_a_client_error() {
    let records: Vec<BenchmarkRecord> = Vec::new();
    let query = AllGraphRequest { r1: 1, r2: 2 };
    let r = api_all_graph_json(&records, "ini_total_time", &query);
    assert!(r.is_err());
}
