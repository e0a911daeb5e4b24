//! The comparison report page: resolves the requested revision window
//! against the catalog, compares both benchmark tables, and shapes the
//! result rows for display.

use vstd::prelude::*;
use crate::catalog::{
    default_high, default_low, list_revisions, resolve_window, rev_known, strictly_ascending,
};
use crate::compare::{compare, compare_ok};
use crate::names::str_eq;
use crate::records::{recs, wf_recs, BenchmarkRecord};
use crate::rows::{ComparisonRow, SortCriterion};
use crate::value::MetricValue;
use crate::LOWEST_REVISION;

verus! {

/// Query parameters of the comparison page: the optional explicit
/// revision window and the optional sort key.
pub struct IndexRequest {
    pub r1: Option<u32>,
    pub r2: Option<u32>,
    pub sort: Option<String>,
}

/// One display row of the broader benchmark table: run time and memory
/// at the two compared revisions.
pub struct CsbTest {
    pub name: String,
    pub time0: MetricValue,
    pub time1: MetricValue,
    pub memory0: MetricValue,
    pub memory1: MetricValue,
}

/// One display row of the scenario benchmark table: cutting time, draw
/// time and memory at the two compared revisions.
pub struct IniTest {
    pub name: String,
    pub cut_time0: MetricValue,
    pub cut_time1: MetricValue,
    pub draw_time0: MetricValue,
    pub draw_time1: MetricValue,
    pub memory0: MetricValue,
    pub memory1: MetricValue,
}

/// Everything the comparison page shows: the revision catalog for the
/// pickers, the resolved window, the sort key, and both tables' rows.
pub struct Page {
    pub revisions: Vec<u32>,
    pub revision_low: u32,
    pub revision_high: u32,
    pub sort: String,
    pub csb_tests: Vec<CsbTest>,
    pub ini_tests: Vec<IniTest>,
}

/// The effective sort key: the requested one, or the domain's default.
pub open spec fn sort_key(q: IndexRequest) -> Seq<char> {
    match q.sort {
        Option::Some(s) => s@,
        Option::None => "cut time"@,
    }
}

/// Which ordering a sort key asks of the broader table (whose metrics
/// are run time and memory): both time keys order by the single time
/// column, anything unrecognized falls back to the name order.
pub open spec fn csb_criterion_spec(sort: Seq<char>) -> SortCriterion {
    if sort == "cut time"@ || sort == "draw time"@ {
        SortCriterion::Metric(0)
    } else if sort == "memory"@ {
        SortCriterion::Metric(1)
    } else {
        SortCriterion::Name
    }
}

/// Which ordering a sort key asks of the scenario table (cutting time,
/// draw time, memory).
pub open spec fn ini_criterion_spec(sort: Seq<char>) -> SortCriterion {
    if sort == "cut time"@ {
        SortCriterion::Metric(0)
    } else if sort == "draw time"@ {
        SortCriterion::Metric(1)
    } else if sort == "memory"@ {
        SortCriterion::Metric(2)
    } else {
        SortCriterion::Name
    }
}

fn csb_criterion(sort: &str) -> (c: SortCriterion)
    ensures
        c == csb_criterion_spec(sort@),
{
    if str_eq(sort, "cut time") || str_eq(sort, "draw time") {
        SortCriterion::Metric(0)
    } else if str_eq(sort, "memory") {
        SortCriterion::Metric(1)
    } else {
        SortCriterion::Name
    }
}

fn ini_criterion(sort: &str) -> (c: SortCriterion)
    ensures
        c == ini_criterion_spec(sort@),
{
    if str_eq(sort, "cut time") {
        SortCriterion::Metric(0)
    } else if str_eq(sort, "draw time") {
        SortCriterion::Metric(1)
    } else if str_eq(sort, "memory") {
        SortCriterion::Metric(2)
    } else {
        SortCriterion::Name
    }
}

/// The display rows carry exactly the joined rows' names and values,
/// in the joined rows' order.
pub open spec fn csb_tests_match(tests: Seq<CsbTest>, rows: Seq<ComparisonRow>) -> bool {
    &&& tests.len() == rows.len()
    &&& forall|k: int|
        0 <= k < tests.len() ==> {
            &&& (#[trigger] tests[k]).name@ == rows[k]@.name
            &&& tests[k].time0 == rows[k]@.low[0]
            &&& tests[k].time1 == rows[k]@.high[0]
            &&& tests[k].memory0 == rows[k]@.low[1]
            &&& tests[k].memory1 == rows[k]@.high[1]
        }
}

/// The display rows carry exactly the joined rows' names and values,
/// in the joined rows' order.
pub open spec fn ini_tests_match(tests: Seq<IniTest>, rows: Seq<ComparisonRow>) -> bool {
    &&& tests.len() == rows.len()
    &&& forall|k: int|
        0 <= k < tests.len() ==> {
            &&& (#[trigger] tests[k]).name@ == rows[k]@.name
            &&& tests[k].cut_time0 == rows[k]@.low[0]
            &&& tests[k].cut_time1 == rows[k]@.high[0]
            &&& tests[k].draw_time0 == rows[k]@.low[1]
            &&& tests[k].draw_time1 == rows[k]@.high[1]
            &&& tests[k].memory0 == rows[k]@.low[2]
            &&& tests[k].memory1 == rows[k]@.high[2]
        }
}

fn csb_tests_of(rows: &Vec<ComparisonRow>) -> (tests: Vec<CsbTest>)
    requires
        forall|k: int|
            0 <= k < rows@.len() ==> (#[trigger] rows@[k])@.low.len() == 2 && rows@[k]@.high.len()
                == 2,
    ensures
        csb_tests_match(tests@, rows@),
{
    let mut tests: Vec<CsbTest> = Vec::new();
    let mut k: usize = 0;
    while k < rows.len()
        invariant
            k <= rows@.len(),
            tests@.len() == k,
            csb_tests_match(tests@, rows@.take(k as int)),
        decreases rows@.len() - k,
    {
        let row = &rows[k];
        tests.push(
            CsbTest {
                name: row.name.clone(),
                time0: row.low[0],
                time1: row.high[0],
                memory0: row.low[1],
                memory1: row.high[1],
            },
        );
        proof {
            assert(rows@.take(k as int + 1)[k as int] == rows@[k as int]);
            assert(forall|t: int|
                0 <= t < k ==> rows@.take(k as int + 1)[t] == rows@.take(k as int)[t]);
        }
        k = k + 1;
    }
    proof {
        assert(rows@.take(rows@.len() as int) =~= rows@);
    }
    tests
}

fn ini_tests_of(rows: &Vec<ComparisonRow>) -> (tests: Vec<IniTest>)
    requires
        forall|k: int|
            0 <= k < rows@.len() ==> (#[trigger] rows@[k])@.low.len() == 3 && rows@[k]@.high.len()
                == 3,
    ensures
        ini_tests_match(tests@, rows@),
{
    let mut tests: Vec<IniTest> = Vec::new();
    let mut k: usize = 0;
    while k < rows.len()
        invariant
            k <= rows@.len(),
            tests@.len() == k,
            ini_tests_match(tests@, rows@.take(k as int)),
        decreases rows@.len() - k,
    {
        let row = &rows[k];
        tests.push(
            IniTest {
                name: row.name.clone(),
                cut_time0: row.low[0],
                cut_time1: row.high[0],
                draw_time0: row.low[1],
                draw_time1: row.high[1],
                memory0: row.low[2],
                memory1: row.high[2],
            },
        );
        proof {
            assert(rows@.take(k as int + 1)[k as int] == rows@[k as int]);
            assert(forall|t: int|
                0 <= t < k ==> rows@.take(k as int + 1)[t] == rows@.take(k as int)[t]);
        }
        k = k + 1;
    }
    proof {
        assert(rows@.take(rows@.len() as int) =~= rows@);
    }
    tests
}

/// Builds the comparison page.  The revision catalog is anchored on the
/// broader benchmark table; a missing window bound falls back to the
/// default window, and `None` comes back exactly when a default is
/// needed but the catalog is empty.
pub fn index(
    csb_records: &Vec<BenchmarkRecord>,
    ini_records: &Vec<BenchmarkRecord>,
    query: &IndexRequest,
) -> (r: Option<Page>)
    requires
        wf_recs(recs(csb_records@), 2),
        wf_recs(recs(ini_records@), 3),
    ensures
        match r {
            Option::Some(page) => {
                &&& strictly_ascending(page.revisions@)
                &&& forall|rv: u32|
                    page.revisions@.contains(rv) <==> rev_known(
                        recs(csb_records@),
                        LOWEST_REVISION,
                        rv,
                    )
                &&& page.revision_low == (match query.r1 {
                    Option::Some(l) => l,
                    Option::None => default_low(page.revisions@),
                })
                &&& page.revision_high == (match query.r2 {
                    Option::Some(h) => h,
                    Option::None => default_high(page.revisions@),
                })
                &&& page.sort@ == sort_key(*query)
                &&& exists|rows: Seq<ComparisonRow>|
                    compare_ok(
                        rows,
                        recs(csb_records@),
                        page.revision_low,
                        page.revision_high,
                        2,
                        csb_criterion_spec(page.sort@),
                    ) && #[trigger] csb_tests_match(page.csb_tests@, rows)
                &&& exists|rows: Seq<ComparisonRow>|
                    compare_ok(
                        rows,
                        recs(ini_records@),
                        page.revision_low,
                        page.revision_high,
                        3,
                        ini_criterion_spec(page.sort@),
                    ) && #[trigger] ini_tests_match(page.ini_tests@, rows)
            },
            Option::None => (query.r1 is None || query.r2 is None) && forall|rv: u32|
                !rev_known(recs(csb_records@), LOWEST_REVISION, rv),
        },
{
    let revisions = list_revisions(csb_records, LOWEST_REVISION);
    let (revision_low, revision_high) = match resolve_window(&revisions, query.r1, query.r2) {
        Option::Some(w) => w,
        Option::None => {
            proof {
                assert forall|rv: u32|
                    !rev_known(recs(csb_records@), LOWEST_REVISION, rv) by {
                    assert(!revisions@.contains(rv));
                }
            }
            return Option::None;
        },
    };
    let sort: String = match &query.sort {
        Option::Some(s) => s.clone(),
        Option::None => "cut time".to_owned(),
    };
    let crit_csb = csb_criterion(sort.as_str());
    let crit_ini = ini_criterion(sort.as_str());
    let rows_csb = compare(csb_records, revision_low, revision_high, 2, crit_csb);
    let rows_ini = compare(ini_records, revision_low, revision_high, 3, crit_ini);
    proof {
        assert forall|k: int|
            0 <= k < rows_csb@.len() implies (#[trigger] rows_csb@[k])@.low.len() == 2
            && rows_csb@[k]@.high.len() == 2 by {
            assert(crate::compare::row_ok(
                rows_csb@[k]@,
                recs(csb_records@),
                revision_low,
                revision_high,
                2,
            ));
        }
        assert forall|k: int|
            0 <= k < rows_ini@.len() implies (#[trigger] rows_ini@[k])@.low.len() == 3
            && rows_ini@[k]@.high.len() == 3 by {
            assert(crate::compare::row_ok(
                rows_ini@[k]@,
                recs(ini_records@),
                revision_low,
                revision_high,
                3,
            ));
        }
    }
    let csb_tests = csb_tests_of(&rows_csb);
    let ini_tests = ini_tests_of(&rows_ini);
    let page = Page { revisions, revision_low, revision_high, sort, csb_tests, ini_tests };
    proof {
        assert(compare_ok(
            rows_csb@,
            recs(csb_records@),
            page.revision_low,
            page.revision_high,
            2,
            csb_criterion_spec(page.sort@),
        ) && csb_tests_match(page.csb_tests@, rows_csb@));
        assert(compare_ok(
            rows_ini@,
            recs(ini_records@),
            page.revision_low,
            page.revision_high,
            3,
            ini_criterion_spec(page.sort@),
        ) && ini_tests_match(page.ini_tests@, rows_ini@));
    }
    Option::Some(page)
}

} // verus!
