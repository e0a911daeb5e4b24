//! The time-series builder: normalized datasets for charting one
//! testcase's metrics across revisions, or one metric across all
//! testcases within a revision range.

use vstd::prelude::*;
use crate::aggregate::{group_mean, GroupKey};
use crate::catalog::{insert_sorted_unique, strictly_ascending};
use crate::names::{contains_seq, normalize_name, normalized, str_contains};
use crate::records::{
    by_filter, by_id, mean_where, present_where, recs, wf_recs, BenchmarkRecord, RecView,
};
use crate::value::{div_round_i128, div_round_nearest, MetricValue, MAX_ABS_VALUE};

verus! {

/// One charted point: the revision it belongs to, the aggregated raw
/// value there, and that value normalized against the series' reference
/// value (its first point).  Normalized values are thousandths, so the
/// reference point charts as `1000`.
#[derive(Clone, Copy, Debug, PartialEq, Eq, Structural)]
pub struct TimeSeriesPoint {
    pub revision: u32,
    pub raw_value: MetricValue,
    pub normalized_value: MetricValue,
}

/// A value divided by the series' reference value, in thousandths.
/// Non-finite as soon as either operand is degenerate or the reference
/// is zero: a division by zero is marked, never passed on silently.
pub open spec fn normalize_value(raw: MetricValue, reference: MetricValue) -> MetricValue {
    match (raw, reference) {
        (MetricValue::Finite(v), MetricValue::Finite(r)) => {
            if r == 0 {
                MetricValue::NonFinite
            } else if r > 0 {
                MetricValue::Finite(div_round_nearest(1000 * v, r as int) as i64)
            } else {
                MetricValue::Finite(div_round_nearest(-1000 * v, -(r as int)) as i64)
            }
        },
        _ => MetricValue::NonFinite,
    }
}

/// A series' first point always normalizes to exactly one (charted as
/// `1000` thousandths) whenever its raw value is finite and non-zero:
/// the round trip through normalization loses nothing at the reference.
pub proof fn lemma_normalize_reference_is_one(v: i64)
    requires
        v != 0,
    ensures
        normalize_value(MetricValue::Finite(v), MetricValue::Finite(v)) == MetricValue::Finite(
            1000,
        ),
{
    if v > 0 {
        let b = v as int;
        assert(2 * (1000 * b) + b == 2 * b * 1000 + b) by (nonlinear_arith);
        vstd::arithmetic::div_mod::lemma_div_multiples_vanish_fancy(1000, b, 2 * b);
    } else {
        let b = -(v as int);
        assert(2 * (-1000 * (v as int)) + b == 2 * b * 1000 + b) by (nonlinear_arith)
            requires
                b == -(v as int),
        ;
        vstd::arithmetic::div_mod::lemma_div_multiples_vanish_fancy(1000, b, 2 * b);
    }
}

/// Normalizes a value against a reference value.
pub fn normalize(raw: MetricValue, reference: MetricValue) -> (r: MetricValue)
    requires
        raw.wf(),
    ensures
        r == normalize_value(raw, reference),
{
    match (raw, reference) {
        (MetricValue::Finite(v), MetricValue::Finite(rf)) => {
            if rf == 0 {
                MetricValue::NonFinite
            } else {
                let num: i128 = 1000 * (v as i128);
                let (n, d) = if rf > 0 {
                    (num, rf as i128)
                } else {
                    (-num, -(rf as i128))
                };
                let q = div_round_i128(n, d);
                proof {
                    let bound: int = 1_000_000_000_000_000_000;
                    assert(-bound * d <= n <= bound * d) by (nonlinear_arith)
                        requires
                            d >= 1,
                            -bound <= n <= bound,
                            bound > 0,
                    ;
                    crate::value::lemma_div_round_nearest_bound(n as int, d as int, bound);
                }
                MetricValue::Finite(q as i64)
            }
        },
        _ => MetricValue::NonFinite,
    }
}

/// Revision `r` qualifies for a testcase series: at or above the floor,
/// with data for some identifier matching the filter.
pub open spec fn filter_rev_known(s: Seq<RecView>, tid: Seq<char>, floor: u32, r: u32) -> bool {
    r >= floor && exists|i: int|
        0 <= i < s.len() && (#[trigger] s[i]).revision == r && contains_seq(s[i].id, tid)
}

/// Lists, ascending, the distinct revisions at or above `floor` holding
/// data for the filtered testcase.
fn list_filter_revisions(records: &Vec<BenchmarkRecord>, tid: &str, floor: u32) -> (revs: Vec<u32>)
    ensures
        strictly_ascending(revs@),
        forall|r: u32| revs@.contains(r) <==> filter_rev_known(recs(records@), tid@, floor, r),
{
    let ghost s = recs(records@);
    let mut revs: Vec<u32> = Vec::new();
    let mut i: usize = 0;
    while i < records.len()
        invariant
            i <= records@.len(),
            strictly_ascending(revs@),
            forall|r: u32| revs@.contains(r) <==> filter_rev_known(s.take(i as int), tid@, floor, r),
        decreases records@.len() - i,
    {
        let rv = records[i].revision;
        let matched = rv >= floor && str_contains(records[i].testcase_id.as_str(), tid);
        proof {
            assert(s[i as int] == records@[i as int]@);
            assert forall|r: u32|
                filter_rev_known(s.take(i as int + 1), tid@, floor, r) <==> (filter_rev_known(
                    s.take(i as int),
                    tid@,
                    floor,
                    r,
                ) || (matched && r == rv)) by {
                if filter_rev_known(s.take(i as int + 1), tid@, floor, r) {
                    let t = choose|t: int|
                        0 <= t < s.take(i as int + 1).len() && (#[trigger] s.take(
                            i as int + 1,
                        )[t]).revision == r && contains_seq(s.take(i as int + 1)[t].id, tid@);
                    if t < i {
                        assert(s.take(i as int)[t] == s[t]);
                        assert(s.take(i as int)[t].revision == r && contains_seq(
                            s.take(i as int)[t].id,
                            tid@,
                        ));
                    }
                }
                if filter_rev_known(s.take(i as int), tid@, floor, r) {
                    let t = choose|t: int|
                        0 <= t < s.take(i as int).len() && (#[trigger] s.take(i as int)[t]).revision
                            == r && contains_seq(s.take(i as int)[t].id, tid@);
                    assert(s.take(i as int + 1)[t] == s[t]);
                    assert(s.take(i as int + 1)[t].revision == r && contains_seq(
                        s.take(i as int + 1)[t].id,
                        tid@,
                    ));
                }
                if matched && r == rv {
                    assert(s.take(i as int + 1)[i as int].revision == r && contains_seq(
                        s.take(i as int + 1)[i as int].id,
                        tid@,
                    ));
                }
            }
        }
        if matched {
            insert_sorted_unique(&mut revs, rv);
        }
        proof {
            assert forall|r: u32|
                revs@.contains(r) <==> filter_rev_known(s.take(i as int + 1), tid@, floor, r) by {
                assert(filter_rev_known(s.take(i as int + 1), tid@, floor, r) <==> (filter_rev_known(
                    s.take(i as int),
                    tid@,
                    floor,
                    r,
                ) || (matched && r == rv)));
            }
        }
        i = i + 1;
    }
    proof {
        assert(s.take(records@.len() as int) =~= s);
    }
    revs
}

// ---------------------------------------------------------------------
// All testcases of one metric, within a revision range
// ---------------------------------------------------------------------
/// A record lies in the inclusive revision range.
pub open spec fn in_range(r: RecView, low: u32, high: u32) -> bool {
    low <= r.revision && r.revision <= high
}

/// Revision `r` qualifies for the shared labels axis: in range, with
/// data for the given identifier (any identifier when `id` is `None`).
pub open spec fn range_rev_known(
    s: Seq<RecView>,
    low: u32,
    high: u32,
    id: Option<Seq<char>>,
    r: u32,
) -> bool {
    low <= r <= high && exists|i: int|
        0 <= i < s.len() && (#[trigger] s[i]).revision == r && match id {
            Option::None => true,
            Option::Some(idv) => s[i].id == idv,
        }
}

/// The model of an optional exact-identifier restriction.
pub open spec fn opt_id_view(o: Option<&String>) -> Option<Seq<char>> {
    match o {
        Option::None => Option::None,
        Option::Some(idv) => Option::Some(idv@),
    }
}

/// Lists, ascending, the distinct revisions in the inclusive range with
/// data (for one identifier, or for any).
fn list_range_revisions(records: &Vec<BenchmarkRecord>, low: u32, high: u32, id: Option<&String>)
    -> (revs: Vec<u32>)
    ensures
        strictly_ascending(revs@),
        forall|r: u32|
            revs@.contains(r) <==> range_rev_known(recs(records@), low, high, opt_id_view(id), r),
{
    let ghost s = recs(records@);
    let ghost idv = opt_id_view(id);
    let mut revs: Vec<u32> = Vec::new();
    let mut i: usize = 0;
    while i < records.len()
        invariant
            i <= records@.len(),
            strictly_ascending(revs@),
            forall|r: u32|
                revs@.contains(r) <==> range_rev_known(s.take(i as int), low, high, idv, r),
        decreases records@.len() - i,
    {
        let rv = records[i].revision;
        let matched = low <= rv && rv <= high && (match id {
            Option::None => true,
            Option::Some(want) => records[i].testcase_id == *want,
        });
        proof {
            assert(s[i as int] == records@[i as int]@);
            assert forall|r: u32|
                range_rev_known(s.take(i as int + 1), low, high, idv, r) <==> (range_rev_known(
                    s.take(i as int),
                    low,
                    high,
                    idv,
                    r,
                ) || (matched && r == rv)) by {
                if range_rev_known(s.take(i as int + 1), low, high, idv, r) {
                    let t = choose|t: int|
                        0 <= t < s.take(i as int + 1).len() && (#[trigger] s.take(
                            i as int + 1,
                        )[t]).revision == r && match idv {
                            Option::None => true,
                            Option::Some(w) => s.take(i as int + 1)[t].id == w,
                        };
                    if t < i {
                        assert(s.take(i as int)[t] == s[t]);
                    }
                }
                if range_rev_known(s.take(i as int), low, high, idv, r) {
                    let t = choose|t: int|
                        0 <= t < s.take(i as int).len() && (#[trigger] s.take(i as int)[t]).revision
                            == r && match idv {
                            Option::None => true,
                            Option::Some(w) => s.take(i as int)[t].id == w,
                        };
                    assert(s.take(i as int + 1)[t] == s[t]);
                }
                if matched && r == rv {
                    assert(s.take(i as int + 1)[i as int] == s[i as int]);
                }
            }
        }
        if matched {
            insert_sorted_unique(&mut revs, rv);
        }
        proof {
            assert forall|r: u32|
                revs@.contains(r) <==> range_rev_known(s.take(i as int + 1), low, high, idv, r) by {
                assert(range_rev_known(s.take(i as int + 1), low, high, idv, r) <==> (
                range_rev_known(s.take(i as int), low, high, idv, r) || (matched && r == rv)));
            }
        }
        i = i + 1;
    }
    proof {
        assert(s.take(records@.len() as int) =~= s);
    }
    revs
}

/// The distinct identifiers with in-range data, in order of first
/// appearance: one chart dataset per identifier.
pub open spec fn range_ids(s: Seq<RecView>, low: u32, high: u32) -> Seq<Seq<char>>
    decreases s.len(),
{
    if s.len() == 0 {
        Seq::empty()
    } else {
        let prev = range_ids(s.drop_last(), low, high);
        if in_range(s.last(), low, high) && !prev.contains(s.last().id) {
            prev.push(s.last().id)
        } else {
            prev
        }
    }
}

/// There is an in-range record with identifier `id`.
pub open spec fn range_id_present(s: Seq<RecView>, low: u32, high: u32, id: Seq<char>) -> bool {
    exists|r: RecView| s.contains(r) && #[trigger] in_range(r, low, high) && r.id == id
}

/// The in-range identifier list holds each in-range identifier exactly
/// once, and nothing else.
pub proof fn lemma_range_ids_sound(s: Seq<RecView>, low: u32, high: u32)
    ensures
        range_ids(s, low, high).no_duplicates(),
        forall|id: Seq<char>|
            #[trigger] range_ids(s, low, high).contains(id) <==> range_id_present(s, low, high, id),
    decreases s.len(),
{
    let dids = range_ids(s, low, high);
    if s.len() == 0 {
        assert(forall|id: Seq<char>| !dids.contains(id));
        assert(forall|r: RecView| !s.contains(r));
    } else {
        lemma_range_ids_sound(s.drop_last(), low, high);
        let prev = range_ids(s.drop_last(), low, high);
        let last = s.last();
        assert(s.contains(last));
        assert forall|id: Seq<char>| #[trigger] dids.contains(id) <==> (prev.contains(id) || (
        in_range(last, low, high) && last.id == id)) by {
            if in_range(last, low, high) && !prev.contains(last.id) {
                assert(dids == prev.push(last.id));
                if dids.contains(id) {
                    let i = choose|i: int| 0 <= i < dids.len() && dids[i] == id;
                    if i < prev.len() {
                        assert(prev[i] == id);
                    }
                }
                if prev.contains(id) {
                    let i = choose|i: int| 0 <= i < prev.len() && prev[i] == id;
                    assert(dids[i] == id);
                }
                if last.id == id {
                    assert(dids[prev.len() as int] == id);
                }
            }
        }
        assert forall|id: Seq<char>| #[trigger] range_id_present(s, low, high, id) <==> (
        range_id_present(s.drop_last(), low, high, id) || (in_range(last, low, high) && last.id
            == id)) by {
            if range_id_present(s, low, high, id) {
                let r = choose|r: RecView|
                    s.contains(r) && #[trigger] in_range(r, low, high) && r.id == id;
                let i = choose|i: int| 0 <= i < s.len() && s[i] == r;
                if i < s.len() - 1 {
                    assert(s.drop_last()[i] == r);
                    assert(s.drop_last().contains(r));
                }
            }
            if range_id_present(s.drop_last(), low, high, id) {
                let r = choose|r: RecView|
                    s.drop_last().contains(r) && #[trigger] in_range(r, low, high) && r.id == id;
                let i = choose|i: int|
                    0 <= i < s.drop_last().len() && s.drop_last()[i] == r;
                assert(s[i] == r);
                assert(s.contains(r));
            }
        }
        if in_range(last, low, high) && !prev.contains(last.id) {
            assert(dids == prev.push(last.id));
            assert forall|i: int, j: int| 0 <= i < j < dids.len() implies dids[i] != dids[j] by {
                if j < prev.len() {
                    assert(dids[i] == prev[i] && dids[j] == prev[j]);
                } else {
                    assert(dids[j] == last.id && dids[i] == prev[i]);
                    assert(prev[i] != last.id) by {
                        if prev[i] == last.id {
                            assert(prev.contains(last.id));
                        }
                    }
                }
            }
            assert(dids.no_duplicates());
        }
    }
}

/// Collects the distinct identifiers with in-range data, in order of
/// first appearance.
fn collect_range_ids(records: &Vec<BenchmarkRecord>, low: u32, high: u32) -> (ids: Vec<String>)
    ensures
        ids@.map_values(|s: String| s@) == range_ids(recs(records@), low, high),
{
    let ghost s = recs(records@);
    let mut ids: Vec<String> = Vec::new();
    proof {
        assert(s.take(0) =~= Seq::<RecView>::empty());
        assert(ids@.map_values(|t: String| t@) =~= range_ids(s.take(0), low, high));
    }
    let mut i: usize = 0;
    while i < records.len()
        invariant
            i <= records@.len(),
            ids@.map_values(|t: String| t@) == range_ids(s.take(i as int), low, high),
        decreases records@.len() - i,
    {
        let r = &records[i];
        proof {
            assert(s[i as int] == records@[i as int]@);
            assert(s.take(i as int + 1).drop_last() =~= s.take(i as int));
            assert(s.take(i as int + 1).last() == s[i as int]);
        }
        let matched = low <= r.revision && r.revision <= high;
        if matched && !crate::aggregate::contains_id(&ids, &r.testcase_id) {
            ids.push(r.testcase_id.clone());
            proof {
                assert(ids@.map_values(|t: String| t@) =~= range_ids(
                    s.take(i as int + 1),
                    low,
                    high,
                ));
            }
        }
        i = i + 1;
    }
    proof {
        assert(s.take(records@.len() as int) =~= s);
    }
    ids
}

/// One chart dataset of the all-testcases view: one testcase's points,
/// labelled with its display name.
pub struct TestcaseSeries {
    /// The raw identifier the dataset was grouped on.
    pub testcase_id: String,
    /// The normalized display name the chart labels the dataset with.
    pub label: String,
    pub points: Vec<TimeSeriesPoint>,
}

/// The all-testcases chart: the shared revision axis, and one dataset
/// per testcase with in-range data.
pub struct AllSeriesData {
    pub labels: Vec<u32>,
    pub datasets: Vec<TestcaseSeries>,
}

/// The points of one exact testcase within the range: its in-range
/// revisions ascending, the per-revision mean of the metric, and each
/// point normalized against the testcase's own first point.
fn series_points_for_id(
    records: &Vec<BenchmarkRecord>,
    id: &String,
    metric: usize,
    n_metrics: usize,
    low: u32,
    high: u32,
) -> (points: Vec<TimeSeriesPoint>)
    requires
        wf_recs(recs(records@), n_metrics as nat),
        metric < n_metrics,
    ensures
        strictly_ascending(points@.map_values(|pt: TimeSeriesPoint| pt.revision)),
        forall|r: u32|
            (exists|t: int| 0 <= t < points@.len() && (#[trigger] points@[t]).revision == r)
                <==> range_rev_known(recs(records@), low, high, Option::Some(id@), r),
        forall|t: int|
            0 <= t < points@.len() ==> (#[trigger] points@[t]).raw_value == mean_where(
                recs(records@),
                by_id(points@[t].revision, id@),
                metric as int,
            ) && points@[t].raw_value.wf(),
        forall|t: int|
            0 <= t < points@.len() ==> (#[trigger] points@[t]).normalized_value == normalize_value(
                points@[t].raw_value,
                points@[0].raw_value,
            ),
{
    let ghost s = recs(records@);
    let revs = list_range_revisions(records, low, high, Option::Some(id));
    let mut points: Vec<TimeSeriesPoint> = Vec::new();
    let mut reference: MetricValue = MetricValue::NonFinite;
    let mut t: usize = 0;
    while t < revs.len()
        invariant
            t <= revs@.len(),
            points@.len() == t,
            forall|u: int| 0 <= u < t ==> (#[trigger] points@[u]).revision == revs@[u],
            t > 0 ==> reference == points@[0].raw_value,
            forall|u: int|
                0 <= u < t ==> (#[trigger] points@[u]).raw_value == mean_where(
                    s,
                    by_id(points@[u].revision, id@),
                    metric as int,
                ) && points@[u].raw_value.wf(),
            forall|u: int|
                0 <= u < t ==> (#[trigger] points@[u]).normalized_value == normalize_value(
                    points@[u].raw_value,
                    points@[0].raw_value,
                ),
        decreases revs@.len() - t,
    {
        let rv = revs[t];
        proof {
            assert(revs@.contains(revs@[t as int]));
            assert(range_rev_known(s, low, high, Option::Some(id@), rv));
            let w = choose|i: int|
                0 <= i < s.len() && (#[trigger] s[i]).revision == rv && s[i].id == id@;
            assert(s.contains(s[w]));
            assert(by_id(rv, id@)(s[w]));
            assert(present_where(s, by_id(rv, id@)));
        }
        let means = group_mean(records, rv, &GroupKey::ById(id.clone()), n_metrics);
        let raw = means[metric];
        if t == 0 {
            reference = raw;
        }
        let norm = normalize(raw, reference);
        points.push(TimeSeriesPoint { revision: rv, raw_value: raw, normalized_value: norm });
        t = t + 1;
    }
    proof {
        let pr = points@.map_values(|pt: TimeSeriesPoint| pt.revision);
        assert forall|a: int, b: int| 0 <= a < b < pr.len() implies pr[a] < pr[b] by {
            assert(pr[a] == points@[a].revision && pr[b] == points@[b].revision);
        }
        assert forall|r: u32|
            (exists|u: int| 0 <= u < points@.len() && (#[trigger] points@[u]).revision == r)
                <==> range_rev_known(s, low, high, Option::Some(id@), r) by {
            if exists|u: int| 0 <= u < points@.len() && (#[trigger] points@[u]).revision == r {
                let u = choose|u: int|
                    0 <= u < points@.len() && (#[trigger] points@[u]).revision == r;
                assert(revs@[u] == r);
                assert(revs@.contains(r));
            }
            if range_rev_known(s, low, high, Option::Some(id@), r) {
                assert(revs@.contains(r));
                let u = choose|u: int| 0 <= u < revs@.len() && revs@[u] == r;
                assert(points@[u].revision == r);
            }
        }
    }
    points
}

/// Everything `series_for_metric` promises: the shared labels axis is
/// the deduplicated ascending set of in-range revisions, there is one
/// dataset per in-range testcase (in order of first appearance)
/// labelled with its display name, each dataset's points ascend by
/// revision (so each in-range revision of the testcase appears exactly
/// once), each point is the per-revision mean, and each dataset is
/// normalized against its own first - that is, earliest - in-range
/// point.
pub open spec fn all_series_ok(
    labels: Seq<u32>,
    datasets: Seq<TestcaseSeries>,
    s: Seq<RecView>,
    metric: int,
    low: u32,
    high: u32,
) -> bool {
    &&& strictly_ascending(labels)
    &&& forall|r: u32| labels.contains(r) <==> range_rev_known(s, low, high, Option::None, r)
    &&& datasets.map_values(|d: TestcaseSeries| d.testcase_id@) == range_ids(s, low, high)
    &&& forall|d: int|
        0 <= d < datasets.len() ==> (#[trigger] datasets[d]).label@ == normalized(
            datasets[d].testcase_id@,
        )
    &&& forall|d: int|
        0 <= d < datasets.len() ==> strictly_ascending(
            (#[trigger] datasets[d]).points@.map_values(|pt: TimeSeriesPoint| pt.revision),
        )
    &&& forall|d: int, t: int|
        0 <= d < datasets.len() && 0 <= t < datasets[d].points@.len() ==> (
        #[trigger] datasets[d].points@[t]).raw_value == mean_where(
            s,
            by_id(datasets[d].points@[t].revision, datasets[d].testcase_id@),
            metric,
        ) && datasets[d].points@[t].normalized_value == normalize_value(
            datasets[d].points@[t].raw_value,
            datasets[d].points@[0].raw_value,
        )
    &&& forall|d: int, r: u32|
        0 <= d < datasets.len() ==> ((exists|t: int|
            0 <= t < datasets[d].points@.len() && (#[trigger] datasets[d].points@[t]).revision == r)
            <==> #[trigger] range_rev_known(s, low, high, Option::Some(datasets[d].testcase_id@), r))
    &&& forall|id: Seq<char>|
        #[trigger] range_id_present(s, low, high, id) <==> exists|d: int|
            0 <= d < datasets.len() && (#[trigger] datasets[d]).testcase_id@ == id
}

/// One metric across all testcases with data in the inclusive revision
/// range: a shared ascending axis of the range's revisions, and one
/// dataset per testcase (in order of first appearance), each testcase
/// normalized against its own earliest in-range point.
pub fn series_for_metric(
    records: &Vec<BenchmarkRecord>,
    metric: usize,
    n_metrics: usize,
    low: u32,
    high: u32,
) -> (out: AllSeriesData)
    requires
        wf_recs(recs(records@), n_metrics as nat),
        metric < n_metrics,
    ensures
        all_series_ok(out.labels@, out.datasets@, recs(records@), metric as int, low, high),
{
    let ghost s = recs(records@);
    let labels = list_range_revisions(records, low, high, Option::None);
    let ids = collect_range_ids(records, low, high);
    let ghost dids = range_ids(s, low, high);
    let mut datasets: Vec<TestcaseSeries> = Vec::new();
    let mut k: usize = 0;
    while k < ids.len()
        invariant
            k <= ids@.len(),
            datasets@.len() == k,
            forall|d: int|
                0 <= d < k ==> (#[trigger] datasets@[d]).testcase_id@ == dids[d],
            forall|d: int|
                0 <= d < k ==> (#[trigger] datasets@[d]).label@ == normalized(
                    datasets@[d].testcase_id@,
                ),
            forall|d: int|
                0 <= d < k ==> strictly_ascending(
                    (#[trigger] datasets@[d]).points@.map_values(|pt: TimeSeriesPoint| pt.revision),
                ),
            forall|d: int, t: int|
                0 <= d < k && 0 <= t < datasets@[d].points@.len()
                    ==> (#[trigger] datasets@[d].points@[t]).raw_value == mean_where(
                    s,
                    by_id(datasets@[d].points@[t].revision, datasets@[d].testcase_id@),
                    metric as int,
                ) && datasets@[d].points@[t].normalized_value == normalize_value(
                    datasets@[d].points@[t].raw_value,
                    datasets@[d].points@[0].raw_value,
                ),
            forall|d: int, r: u32|
                0 <= d < k ==> ((exists|t: int|
                    0 <= t < datasets@[d].points@.len() && (#[trigger] datasets@[d].points@[t]).revision
                        == r) <==> #[trigger] range_rev_known(
                    s,
                    low,
                    high,
                    Option::Some(datasets@[d].testcase_id@),
                    r,
                )),
        decreases ids@.len() - k,
    {
        proof {
            assert(ids@.map_values(|t: String| t@)[k as int] == ids@[k as int]@);
        }
        let id = &ids[k];
        let points = series_points_for_id(records, id, metric, n_metrics, low, high);
        let label = normalize_name(id.as_str());
        datasets.push(TestcaseSeries { testcase_id: id.clone(), label, points });
        k = k + 1;
    }
    proof {
        assert(datasets@.map_values(|d: TestcaseSeries| d.testcase_id@) =~= dids);
        lemma_range_ids_sound(s, low, high);
        assert forall|id: Seq<char>|
            #[trigger] range_id_present(s, low, high, id) <==> (exists|d: int|
                0 <= d < datasets@.len() && (#[trigger] datasets@[d]).testcase_id@ == id) by {
            if range_id_present(s, low, high, id) {
                assert(dids.contains(id));
                let u = choose|u: int| 0 <= u < dids.len() && dids[u] == id;
                assert(datasets@[u].testcase_id@ == id);
            }
            if exists|d: int| 0 <= d < datasets@.len() && (#[trigger] datasets@[d]).testcase_id@
                == id {
                let d = choose|d: int|
                    0 <= d < datasets@.len() && (#[trigger] datasets@[d]).testcase_id@ == id;
                assert(dids[d] == id);
                assert(dids.contains(id));
            }
        }
    }
    AllSeriesData { labels, datasets }
}

/// Everything `series_for_testcase` promises of one metric's points:
/// revisions qualify and ascend, raw values are the filtered groups'
/// means, every point is normalized against the first point's raw
/// value, and a series whose reference is finite and non-zero starts at
/// exactly one.
pub open spec fn testcase_series_ok(
    points: Seq<TimeSeriesPoint>,
    s: Seq<RecView>,
    tid: Seq<char>,
    metric: int,
    floor: u32,
) -> bool {
    &&& strictly_ascending(points.map_values(|pt: TimeSeriesPoint| pt.revision))
    &&& forall|r: u32|
        (exists|t: int| 0 <= t < points.len() && (#[trigger] points[t]).revision == r)
            <==> filter_rev_known(s, tid, floor, r)
    &&& forall|t: int|
        0 <= t < points.len() ==> (#[trigger] points[t]).raw_value == mean_where(
            s,
            by_filter(points[t].revision, tid),
            metric,
        ) && points[t].raw_value.wf()
    &&& forall|t: int|
        0 <= t < points.len() ==> (#[trigger] points[t]).normalized_value == normalize_value(
            points[t].raw_value,
            points[0].raw_value,
        )
    &&& (points.len() > 0 && points[0].raw_value is Finite && points[0].raw_value.milli() != 0)
        ==> points[0].normalized_value == MetricValue::Finite(1000)
}

/// One metric of one (filtered) testcase across every qualifying
/// revision, ascending, each point normalized against the first point's
/// raw value.  The testcase filter has substring semantics, matching
/// the storage layer's pattern lookup.
pub fn series_for_testcase(
    records: &Vec<BenchmarkRecord>,
    testcase_id: &str,
    metric: usize,
    n_metrics: usize,
    floor: u32,
) -> (points: Vec<TimeSeriesPoint>)
    requires
        wf_recs(recs(records@), n_metrics as nat),
        metric < n_metrics,
    ensures
        testcase_series_ok(points@, recs(records@), testcase_id@, metric as int, floor),
{
    let ghost s = recs(records@);
    let revs = list_filter_revisions(records, testcase_id, floor);
    let mut points: Vec<TimeSeriesPoint> = Vec::new();
    let mut reference: MetricValue = MetricValue::NonFinite;
    let mut t: usize = 0;
    while t < revs.len()
        invariant
            t <= revs@.len(),
            points@.len() == t,
            forall|u: int| 0 <= u < t ==> (#[trigger] points@[u]).revision == revs@[u],
            t > 0 ==> reference == points@[0].raw_value,
            forall|u: int|
                0 <= u < t ==> (#[trigger] points@[u]).raw_value == mean_where(
                    s,
                    by_filter(points@[u].revision, testcase_id@),
                    metric as int,
                ) && points@[u].raw_value.wf(),
            forall|u: int|
                0 <= u < t ==> (#[trigger] points@[u]).normalized_value == normalize_value(
                    points@[u].raw_value,
                    points@[0].raw_value,
                ),
        decreases revs@.len() - t,
    {
        let rv = revs[t];
        proof {
            assert(revs@.contains(revs@[t as int]));
            assert(filter_rev_known(s, testcase_id@, floor, rv));
            let w = choose|i: int|
                0 <= i < s.len() && (#[trigger] s[i]).revision == rv && contains_seq(
                    s[i].id,
                    testcase_id@,
                );
            assert(s.contains(s[w]));
            assert(by_filter(rv, testcase_id@)(s[w]));
            assert(present_where(s, by_filter(rv, testcase_id@)));
        }
        let means = group_mean(records, rv, &GroupKey::ByFilter(testcase_id.to_owned()), n_metrics);
        let raw = means[metric];
        if t == 0 {
            reference = raw;
        }
        let norm = normalize(raw, reference);
        points.push(TimeSeriesPoint { revision: rv, raw_value: raw, normalized_value: norm });
        t = t + 1;
    }
    proof {
        let pr = points@.map_values(|pt: TimeSeriesPoint| pt.revision);
        assert forall|a: int, b: int| 0 <= a < b < pr.len() implies pr[a] < pr[b] by {
            assert(pr[a] == points@[a].revision && pr[b] == points@[b].revision);
        }
        assert forall|r: u32|
            (exists|u: int| 0 <= u < points@.len() && (#[trigger] points@[u]).revision == r)
                <==> filter_rev_known(s, testcase_id@, floor, r) by {
            if exists|u: int| 0 <= u < points@.len() && (#[trigger] points@[u]).revision == r {
                let u = choose|u: int|
                    0 <= u < points@.len() && (#[trigger] points@[u]).revision == r;
                assert(revs@[u] == r);
                assert(revs@.contains(r));
            }
            if filter_rev_known(s, testcase_id@, floor, r) {
                assert(revs@.contains(r));
                let u = choose|u: int| 0 <= u < revs@.len() && revs@[u] == r;
                assert(points@[u].revision == r);
            }
        }
        if points@.len() > 0 {
            match points@[0].raw_value {
                MetricValue::Finite(v) => {
                    if v != 0 {
                        lemma_normalize_reference_is_one(v);
                    }
                },
                MetricValue::NonFinite => {},
            }
        }
    }
    points
}

} // verus!
