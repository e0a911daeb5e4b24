//! The charting entry points: one testcase's metrics across revisions,
//! and one metric across all testcases of a revision range.  Both
//! validate the requested category or metric key against the closed
//! configured set and reject anything else as a client error.

use vstd::prelude::*;
use crate::catalog::strictly_ascending;
use crate::names::str_eq;
use crate::records::{recs, wf_recs, BenchmarkRecord, RecView};
use crate::series::{
    all_series_ok, filter_rev_known, series_for_metric, series_for_testcase, testcase_series_ok,
    AllSeriesData, TimeSeriesPoint,
};
use crate::LOWEST_REVISION;

verus! {

/// Query parameters of the single-testcase chart: which testcase to
/// chart (matched as a substring of the raw identifier).
pub struct FileGraphRequest {
    pub id: String,
}

/// Query parameters of the all-testcases chart: the inclusive revision
/// range.
pub struct AllGraphRequest {
    pub r1: u32,
    pub r2: u32,
}

/// A caller-supplied category or metric key outside the configured set:
/// a client error, never a fault of the engine.
#[derive(Clone, Copy, Debug, PartialEq, Eq, Structural)]
pub enum RequestError {
    UnsupportedCategory,
}

/// The two benchmark tables the store keeps.  Each carries a fixed
/// metric list: the broader `Csb` table holds run time and memory, the
/// `Ini` table holds cutting time, draw time and memory.
#[derive(Clone, Copy, Debug, PartialEq, Eq, Structural)]
pub enum Category {
    Csb,
    Ini,
}

impl Category {
    /// Which category a table-type name denotes, if any.
    pub open spec fn parse_spec(ft: Seq<char>) -> Result<Category, RequestError> {
        if ft == "csb"@ {
            Result::Ok(Category::Csb)
        } else if ft == "ini"@ {
            Result::Ok(Category::Ini)
        } else {
            Result::Err(RequestError::UnsupportedCategory)
        }
    }

    /// How many metrics the category's records carry.
    pub open spec fn metric_count_spec(self) -> nat {
        match self {
            Category::Csb => 2,
            Category::Ini => 3,
        }
    }

    /// Parses a table-type name; a name outside the configured set is
    /// the caller's error, not a fault.
    pub fn parse(file_type: &str) -> (r: Result<Category, RequestError>)
        ensures
            r == Category::parse_spec(file_type@),
    {
        if str_eq(file_type, "csb") {
            Result::Ok(Category::Csb)
        } else if str_eq(file_type, "ini") {
            Result::Ok(Category::Ini)
        } else {
            Result::Err(RequestError::UnsupportedCategory)
        }
    }

    /// How many metrics the category's records carry.
    pub fn metric_count(&self) -> (n: usize)
        ensures
            n as nat == self.metric_count_spec(),
    {
        match self {
            Category::Csb => 2,
            Category::Ini => 3,
        }
    }
}

/// The category a well-formed table-type name denotes (meaningful when
/// `Category::parse_spec` succeeds).
pub open spec fn parsed_category(ft: Seq<char>) -> Category {
    if ft == "csb"@ {
        Category::Csb
    } else {
        Category::Ini
    }
}

/// Which record column the `d`-th chart dataset of a category draws
/// from (the chart shows memory first, then the time metrics).
pub open spec fn graph_metric_index(cat: Category, d: int) -> int {
    match cat {
        Category::Csb => if d == 0 {
            1
        } else {
            0
        },
        Category::Ini => if d == 0 {
            2
        } else if d == 1 {
            0
        } else {
            1
        },
    }
}

/// The display title of the `d`-th chart dataset of a category.
pub open spec fn graph_metric_title(cat: Category, d: int) -> Seq<char> {
    match cat {
        Category::Csb => if d == 0 {
            "Memory"@
        } else {
            "Run Time"@
        },
        Category::Ini => if d == 0 {
            "Memory"@
        } else if d == 1 {
            "Cut Time"@
        } else {
            "Draw Time"@
        },
    }
}

/// One chart dataset of the single-testcase view: one metric's points,
/// under the metric's display title.
pub struct MetricSeries {
    pub label: String,
    pub points: Vec<TimeSeriesPoint>,
}

/// The single-testcase chart: the revision axis and one dataset per
/// metric of the testcase's category.
pub struct FileSeriesData {
    pub labels: Vec<u32>,
    pub datasets: Vec<MetricSeries>,
}

/// Copies a point vector's revisions into a label axis.
fn revisions_of(points: &Vec<TimeSeriesPoint>) -> (labels: Vec<u32>)
    ensures
        labels@ == points@.map_values(|pt: TimeSeriesPoint| pt.revision),
{
    let mut labels: Vec<u32> = Vec::new();
    let mut t: usize = 0;
    while t < points.len()
        invariant
            t <= points@.len(),
            labels@.len() == t,
            forall|u: int| 0 <= u < t ==> (#[trigger] labels@[u]) == points@[u].revision,
        decreases points@.len() - t,
    {
        labels.push(points[t].revision);
        t = t + 1;
    }
    proof {
        assert(labels@ =~= points@.map_values(|pt: TimeSeriesPoint| pt.revision));
    }
    labels
}

/// Builds the single-testcase chart: for each metric of the requested
/// category, the testcase's values across every known revision at or
/// above the configured floor, normalized to the first revision's
/// value.  An unknown category is rejected as a client error.
pub fn api_file_graph_json(
    records: &Vec<BenchmarkRecord>,
    file_type: &str,
    query: &FileGraphRequest,
) -> (r: Result<FileSeriesData, RequestError>)
    requires
        Category::parse_spec(file_type@) matches Result::Ok(c) ==> wf_recs(
            recs(records@),
            c.metric_count_spec(),
        ),
    ensures
        match r {
            Result::Ok(data) => {
                let cat = parsed_category(file_type@);
                &&& Category::parse_spec(file_type@) is Ok
                &&& strictly_ascending(data.labels@)
                &&& forall|rv: u32|
                    data.labels@.contains(rv) <==> filter_rev_known(
                        recs(records@),
                        query.id@,
                        LOWEST_REVISION,
                        rv,
                    )
                &&& data.datasets@.len() == cat.metric_count_spec()
                &&& forall|d: int|
                    0 <= d < data.datasets@.len() ==> (#[trigger] data.datasets@[d]).label@
                        == graph_metric_title(cat, d) && testcase_series_ok(
                        data.datasets@[d].points@,
                        recs(records@),
                        query.id@,
                        graph_metric_index(cat, d),
                        LOWEST_REVISION,
                    )
            },
            Result::Err(e) => Category::parse_spec(file_type@) is Err
                && e == RequestError::UnsupportedCategory,
        },
{
    let ghost s = recs(records@);
    let cat = match Category::parse(file_type) {
        Result::Ok(c) => c,
        Result::Err(e) => {
            return Result::Err(e);
        },
    };
    let n = cat.metric_count();
    let tid = query.id.as_str();
    let mut datasets: Vec<MetricSeries> = Vec::new();
    match cat {
        Category::Csb => {
            let p0 = series_for_testcase(records, tid, 1, n, LOWEST_REVISION);
            let p1 = series_for_testcase(records, tid, 0, n, LOWEST_REVISION);
            let labels = revisions_of(&p0);
            proof {
                lemma_labels_match(p0@, s, query.id@);
            }
            datasets.push(MetricSeries { label: "Memory".to_owned(), points: p0 });
            datasets.push(MetricSeries { label: "Run Time".to_owned(), points: p1 });
            Result::Ok(FileSeriesData { labels, datasets })
        },
        Category::Ini => {
            let p0 = series_for_testcase(records, tid, 2, n, LOWEST_REVISION);
            let p1 = series_for_testcase(records, tid, 0, n, LOWEST_REVISION);
            let p2 = series_for_testcase(records, tid, 1, n, LOWEST_REVISION);
            let labels = revisions_of(&p0);
            proof {
                lemma_labels_match(p0@, s, query.id@);
            }
            datasets.push(MetricSeries { label: "Memory".to_owned(), points: p0 });
            datasets.push(MetricSeries { label: "Cut Time".to_owned(), points: p1 });
            datasets.push(MetricSeries { label: "Draw Time".to_owned(), points: p2 });
            Result::Ok(FileSeriesData { labels, datasets })
        },
    }
}

/// A point sequence's revision axis has exactly the qualifying
/// revisions, ascending.
proof fn lemma_labels_match(points: Seq<TimeSeriesPoint>, s: Seq<RecView>, tid: Seq<char>)
    requires
        strictly_ascending(points.map_values(|pt: TimeSeriesPoint| pt.revision)),
        forall|r: u32|
            (exists|t: int| 0 <= t < points.len() && (#[trigger] points[t]).revision == r)
                <==> filter_rev_known(s, tid, LOWEST_REVISION, r),
    ensures
        forall|r: u32|
            points.map_values(|pt: TimeSeriesPoint| pt.revision).contains(r) <==> filter_rev_known(
                s,
                tid,
                LOWEST_REVISION,
                r,
            ),
{
    let labels = points.map_values(|pt: TimeSeriesPoint| pt.revision);
    assert forall|r: u32|
        labels.contains(r) <==> filter_rev_known(s, tid, LOWEST_REVISION, r) by {
        if labels.contains(r) {
            let t = choose|t: int| 0 <= t < labels.len() && labels[t] == r;
            assert(points[t].revision == r);
        }
        if filter_rev_known(s, tid, LOWEST_REVISION, r) {
            let t = choose|t: int| 0 <= t < points.len() && (#[trigger] points[t]).revision == r;
            assert(labels[t] == r);
        }
    }
}

/// The five metric keys of the all-testcases chart: a table and one of
/// its metric columns.
#[derive(Clone, Copy, Debug, PartialEq, Eq, Structural)]
pub enum MetricKey {
    CsbMemory,
    CsbPlayTime,
    IniMemory,
    IniCutTime,
    IniDrawTime,
}

impl MetricKey {
    /// Which key a metric-key name denotes, if any.
    pub open spec fn parse_spec(ft: Seq<char>) -> Result<MetricKey, RequestError> {
        if ft == "csb_memory"@ {
            Result::Ok(MetricKey::CsbMemory)
        } else if ft == "csb_play_time"@ {
            Result::Ok(MetricKey::CsbPlayTime)
        } else if ft == "ini_memory"@ {
            Result::Ok(MetricKey::IniMemory)
        } else if ft == "ini_cut_time"@ {
            Result::Ok(MetricKey::IniCutTime)
        } else if ft == "ini_draw_time"@ {
            Result::Ok(MetricKey::IniDrawTime)
        } else {
            Result::Err(RequestError::UnsupportedCategory)
        }
    }

    /// The table the key draws from.
    pub open spec fn category_spec(self) -> Category {
        match self {
            MetricKey::CsbMemory => Category::Csb,
            MetricKey::CsbPlayTime => Category::Csb,
            _ => Category::Ini,
        }
    }

    /// The record column the key charts.
    pub open spec fn index_spec(self) -> int {
        match self {
            MetricKey::CsbMemory => 1,
            MetricKey::CsbPlayTime => 0,
            MetricKey::IniMemory => 2,
            MetricKey::IniCutTime => 0,
            MetricKey::IniDrawTime => 1,
        }
    }

    /// The display title of the charted metric.
    pub open spec fn title_spec(self) -> Seq<char> {
        match self {
            MetricKey::CsbMemory => "Memory"@,
            MetricKey::CsbPlayTime => "Run Time"@,
            MetricKey::IniMemory => "Memory"@,
            MetricKey::IniCutTime => "Cut Time"@,
            MetricKey::IniDrawTime => "Draw Time"@,
        }
    }

    /// Parses a metric-key name; a name outside the configured set is
    /// the caller's error, not a fault.
    pub fn parse(file_type: &str) -> (r: Result<MetricKey, RequestError>)
        ensures
            r == MetricKey::parse_spec(file_type@),
    {
        if str_eq(file_type, "csb_memory") {
            Result::Ok(MetricKey::CsbMemory)
        } else if str_eq(file_type, "csb_play_time") {
            Result::Ok(MetricKey::CsbPlayTime)
        } else if str_eq(file_type, "ini_memory") {
            Result::Ok(MetricKey::IniMemory)
        } else if str_eq(file_type, "ini_cut_time") {
            Result::Ok(MetricKey::IniCutTime)
        } else if str_eq(file_type, "ini_draw_time") {
            Result::Ok(MetricKey::IniDrawTime)
        } else {
            Result::Err(RequestError::UnsupportedCategory)
        }
    }

    /// The table the key draws from.
    pub fn category(&self) -> (c: Category)
        ensures
            c == self.category_spec(),
    {
        match self {
            MetricKey::CsbMemory => Category::Csb,
            MetricKey::CsbPlayTime => Category::Csb,
            _ => Category::Ini,
        }
    }

    /// The record column the key charts.
    pub fn metric_index(&self) -> (j: usize)
        ensures
            j as int == self.index_spec(),
            (j as int) < self.category_spec().metric_count_spec(),
    {
        match self {
            MetricKey::CsbMemory => 1,
            MetricKey::CsbPlayTime => 0,
            MetricKey::IniMemory => 2,
            MetricKey::IniCutTime => 0,
            MetricKey::IniDrawTime => 1,
        }
    }

    /// The display title of the charted metric.
    pub fn title(&self) -> (t: &'static str)
        ensures
            t@ == self.title_spec(),
    {
        match self {
            MetricKey::CsbMemory => "Memory",
            MetricKey::CsbPlayTime => "Run Time",
            MetricKey::IniMemory => "Memory",
            MetricKey::IniCutTime => "Cut Time",
            MetricKey::IniDrawTime => "Draw Time",
        }
    }
}

/// The key a well-formed metric-key name denotes (meaningful when
/// `MetricKey::parse_spec` succeeds).
pub open spec fn parsed_metric_key(ft: Seq<char>) -> MetricKey {
    if ft == "csb_memory"@ {
        MetricKey::CsbMemory
    } else if ft == "csb_play_time"@ {
        MetricKey::CsbPlayTime
    } else if ft == "ini_memory"@ {
        MetricKey::IniMemory
    } else if ft == "ini_cut_time"@ {
        MetricKey::IniCutTime
    } else {
        MetricKey::IniDrawTime
    }
}

/// Builds the all-testcases chart for one metric key: one dataset per
/// testcase with data in the requested revision range, each normalized
/// to its own first point, over a shared deduplicated ascending
/// revision axis.  An unknown metric key is rejected as a client error.
pub fn api_all_graph_json(
    records: &Vec<BenchmarkRecord>,
    file_type: &str,
    query: &AllGraphRequest,
) -> (r: Result<AllSeriesData, RequestError>)
    requires
        MetricKey::parse_spec(file_type@) matches Result::Ok(k) ==> wf_recs(
            recs(records@),
            k.category_spec().metric_count_spec(),
        ),
    ensures
        match r {
            Result::Ok(data) => MetricKey::parse_spec(file_type@) is Ok && all_series_ok(
                data.labels@,
                data.datasets@,
                recs(records@),
                parsed_metric_key(file_type@).index_spec(),
                query.r1,
                query.r2,
            ),
            Result::Err(e) => MetricKey::parse_spec(file_type@) is Err
                && e == RequestError::UnsupportedCategory,
        },
{
    let key = match MetricKey::parse(file_type) {
        Result::Ok(k) => k,
        Result::Err(e) => {
            return Result::Err(e);
        },
    };
    let n = key.category().metric_count();
    let j = key.metric_index();
    Result::Ok(series_for_metric(records, j, n, query.r1, query.r2))
}

} // verus!
