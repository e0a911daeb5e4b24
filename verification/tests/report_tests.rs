use benchreport::catalog::list_revisions;
use benchreport::fmt::{format_mem, format_time, u64_to_string};
use benchreport::records::BenchmarkRecord;
use benchreport::report::{index, IndexRequest};
use benchreport::value::MetricValue;

fn csb(revision: u32, id: &str, time_milli: i64, mem_milli: i64) -> BenchmarkRecord {
    BenchmarkRecord::new(
        revision,
        id.to_string(),
        vec![
            MetricValue::from_milli(time_milli),
            MetricValue::from_milli(mem_milli),
        ],
    )
}

fn ini(revision: u32, id: &str, cut: i64, draw: i64, mem: i64) -> BenchmarkRecord {
    BenchmarkRecord::new(
        revision,
        id.to_string(),
        vec![
            MetricValue::from_milli(cut),
            MetricValue::from_milli(draw),
            MetricValue::from_milli(mem),
        ],
    )
}

fn csb_at_revisions(revisions: &[u32]) -> Vec<BenchmarkRecord> {
    revisions.iter().map(|r| csb(*r, "t", 10_000, 1_000_000)).collect()
}

#[test]
fn catalog_ignores_revisions_below_the_floor() {
    let records = vec![
        csb(799_999, "t", 1_000, 1_000),
        csb(800_001, "t", 1_000, 1_000),
        csb(800_003, "t", 1_000, 1_000),
        csb(800_001, "t", 2_000, 2_000),
    ];
    let revs = list_revisions(&records, 800_000);
    assert_eq!(revs, vec![800_001, 800_003]);
}

#[test]
fn default_window_is_fifth_from_last_to_latest() {
    let records = csb_at_revisions(&[
        800_001, 800_002, 800_003, 800_004, 800_005, 800_006, 800_007,
    ]);
    let query = IndexRequest { r1: None, r2: None, sort: None };
    let page = index(&records, &Vec::new(), &query).unwrap();
    assert_eq!(page.revision_low, 800_003);
    assert_eq!(page.revision_high, 800_007);
    assert_eq!(page.sort, "cut time");
}

#[test]
fn default_window_falls_back_to_earliest_when_few_revisions() {
    let records = csb_at_revisions(&[800_001, 800_002]);
    let query = IndexRequest { r1: None, r2: None, sort: None };
    let page = index(&records, &Vec::new(), &query).unwrap();
    assert_eq!(page.revision_low, 800_001);
    assert_eq!(page.revision_high, 800_002);
}

#[test]
fn explicit_window_is_taken_as_given() {
    let records = csb_at_revisions(&[800_001, 800_002]);
    let query = IndexRequest { r1: Some(800_001), r2: Some(800_001), sort: Some("name".to_string()) };
    let page = index(&records, &Vec::new(), &query).unwrap();
    assert_eq!(page.revision_low, 800_001);
    assert_eq!(page.revision_high, 800_001);
    assert_eq!(page.sort, "name");
}

#[test]
fn empty_catalog_without_explicit_window_yields_no_page() {
    let query = IndexRequest { r1: None, r2: None, sort: None };
    assert!(index(&Vec::new(), &Vec::new(), &query).is_none());
}

#[test]
fn page_compares_both_tables() {
    let csb_records = vec![
        csb(800_001, "c\\testcases\\one.csb", 10_000, 1_000_000),
        csb(800_002, "c\\testcases\\one.csb", 11_000, 1_000_000),
    ];
    let ini_records = vec![
        ini(800_001, "c\\testcases\\two.ini", 5_000, 6_000, 500_000),
        ini(800_002, "c\\testcases\\two.ini", 5_500, 6_000, 500_000),
    ];
    let query = IndexRequest { r1: Some(800_001), r2: Some(800_002), sort: None };
    let page = index(&csb_records, &ini_records, &query).unwrap();
    assert_eq!(page.csb_tests.len(), 1);
    assert_eq!(page.csb_tests[0].name, "one.csb");
    assert_eq!(page.csb_tests[0].time0, MetricValue::Finite(10_000));
    assert_eq!(page.csb_tests[0].time1, MetricValue::Finite(11_000));
    assert_eq!(page.csb_tests[0].memory0, MetricValue::Finite(1_000_000));
    assert_eq!(page.ini_tests.len(), 1);
    assert_eq!(page.ini_tests[0].name, "two.ini");
    assert_eq!(page.ini_tests[0].cut_time0, MetricValue::Finite(5_000));
    assert_eq!(page.ini_tests[0].cut_time1, MetricValue::Finite(5_500));
    assert_eq!(page.ini_tests[0].draw_time1, MetricValue::Finite(6_000));
    assert_eq!(page.ini_tests[0].memory1, MetricValue::Finite(500_000));
}

#[test]
fn page_sorted_by_name_lists_names_ascending() {
    let csb_records = vec![
        csb(800_001, "x\\testcases\\bb.csb", 10_000, 1_000),
        csb(800_002, "x\\testcases\\bb.csb", 10_000, 1_000),
        csb(800_001, "y\\testcases\\aa.csb", 10_000, 1_000),
        csb(800_002, "y\\testcases\\aa.csb", 10_000, 1_000),
    ];
    let query = IndexRequest {
        r1: Some(800_001),
        r2: Some(800_002),
        sort: Some("name".to_string()),
    };
    let page = index(&csb_records, &Vec::new(), &query).unwrap();
    let names: Vec<&str> = page.csb_tests.iter().map(|t| t.name.as_str()).collect();
    assert_eq!(names, vec!["aa.csb", "bb.csb"]);
}

#[test]
fn decimal_rendering() {
    assert_eq!(u64_to_string(0), "0");
    assert_eq!(u64_to_string(7), "7");
    assert_eq!(u64_to_string(1_234_567_890), "1234567890");
}

#[test]
fn time_formats_with_two_decimals() {
    assert_eq!(format_time(MetricValue::Finite(12_345)), "12.35s");
    assert_eq!(format_time(MetricValue::Finite(500)), "0.50s");
    assert_eq!(format_time(MetricValue::Finite(0)), "0.00s");
    assert_eq!(format_time(MetricValue::Finite(-1_250)), "-1.25s");
    assert_eq!(format_time(MetricValue::NonFinite), "?");
}

#[test]
fn memory_formats_as_whole_megabytes() {
    assert_eq!(format_mem(MetricValue::Finite(1_536_499)), "1536 MB");
    assert_eq!(format_mem(MetricValue::Finite(1_536_500)), "1537 MB");
    assert_eq!(format_mem(MetricValue::NonFinite), "?");
}
