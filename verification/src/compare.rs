//! The comparison engine: aggregates two revisions, joins their
//! statistics by testcase identity (a true intersection), computes each
//! metric's relative change, and orders the result by the requested
//! criterion.

use vstd::prelude::*;
use crate::aggregate::{aggregate, distinct_ids, id_present, lemma_distinct_ids_sound,
    sel_match, AggregatedStat};
use crate::change::{change_spec, relative_change, ChangeResult};
use crate::names::{lemma_lex_total, lex_leq, normalize_name, normalized};
use crate::records::{by_id, mean_where, present_where, recs, wf_recs, BenchmarkRecord, RecView};
use crate::rows::{row_leq_at, row_vals_wf, rows_sorted, sort_rows, ComparisonRow, RowView,
    SortCriterion};
use crate::value::MetricValue;

verus! {

/// A testcase is joined when both compared revisions hold data for its
/// raw identifier.
pub open spec fn joined_id(s: Seq<RecView>, lo: u32, hi: u32, id: Seq<char>) -> bool {
    &&& present_where(s, by_id(lo, id))
    &&& present_where(s, by_id(hi, id))
}

/// A correct comparison row for the identifier it carries: the display
/// name is the normalized identifier, the means are the two revisions'
/// aggregated means, and each change is the classified relative change
/// of its metric pair.
pub open spec fn row_ok(row: RowView, s: Seq<RecView>, lo: u32, hi: u32, n: nat) -> bool {
    &&& row.name == normalized(row.id)
    &&& row_vals_wf(row, n)
    &&& row.changes.len() == n
    &&& forall|j: int| 0 <= j < n ==> (#[trigger] row.low[j]) == mean_where(s, by_id(lo, row.id), j)
    &&& forall|j: int|
        0 <= j < n ==> (#[trigger] row.high[j]) == mean_where(s, by_id(hi, row.id), j)
    &&& forall|j: int|
        0 <= j < n ==> (#[trigger] row.changes[j]) == change_spec(row.low[j], row.high[j])
}

/// Copies a value vector.
fn copy_values(v: &Vec<MetricValue>) -> (out: Vec<MetricValue>)
    ensures
        out@ == v@,
{
    let mut out: Vec<MetricValue> = Vec::new();
    let mut i: usize = 0;
    while i < v.len()
        invariant
            i <= v@.len(),
            out@ == v@.take(i as int),
        decreases v@.len() - i,
    {
        out.push(v[i]);
        proof {
            assert(out@ =~= v@.take(i as int + 1));
        }
        i = i + 1;
    }
    proof {
        assert(v@.take(v@.len() as int) =~= v@);
    }
    out
}

/// Looks an aggregated statistic up by raw identifier.
fn find_stat(stats: &Vec<AggregatedStat>, id: &String) -> (r: Option<usize>)
    ensures
        match r {
            Option::Some(k) => k < stats@.len() && stats@[k as int].testcase_id@ == id@,
            Option::None => forall|t: int|
                0 <= t < stats@.len() ==> (#[trigger] stats@[t]).testcase_id@ != id@,
        },
{
    let mut k: usize = 0;
    while k < stats.len()
        invariant
            k <= stats@.len(),
            forall|t: int| 0 <= t < k ==> (#[trigger] stats@[t]).testcase_id@ != id@,
        decreases stats@.len() - k,
    {
        if stats[k].testcase_id == *id {
            return Option::Some(k);
        }
        k = k + 1;
    }
    Option::None
}

/// Everything `compare` promises of its result: every row is a correct
/// joined row and the join is a true intersection (a testcase present
/// at only one of the two revisions yields no row), every joined
/// testcase appears exactly once, and the result is ordered by the
/// criterion.
pub open spec fn compare_ok(
    rows: Seq<ComparisonRow>,
    s: Seq<RecView>,
    lo: u32,
    hi: u32,
    n: nat,
    criterion: SortCriterion,
) -> bool {
    &&& forall|k: int|
        0 <= k < rows.len() ==> row_ok((#[trigger] rows[k])@, s, lo, hi, n) && joined_id(
            s,
            lo,
            hi,
            rows[k]@.id,
        )
    &&& forall|id: Seq<char>|
        #[trigger] joined_id(s, lo, hi, id) ==> exists|k: int|
            0 <= k < rows.len() && (#[trigger] rows[k])@.id == id
    &&& forall|k1: int, k2: int|
        0 <= k1 < rows.len() && 0 <= k2 < rows.len() && k1 != k2 ==> (#[trigger] rows[k1])@.id != (
        #[trigger] rows[k2])@.id
    &&& rows_sorted(rows, criterion)
}

/// Compares two revisions: one row per testcase present in both, with
/// per-metric means and classified changes, ordered by the criterion.
/// A testcase present at only one of the two revisions yields no row.
pub fn compare(
    records: &Vec<BenchmarkRecord>,
    low_revision: u32,
    high_revision: u32,
    n_metrics: usize,
    criterion: SortCriterion,
) -> (rows: Vec<ComparisonRow>)
    requires
        wf_recs(recs(records@), n_metrics as nat),
        criterion matches SortCriterion::Metric(j) ==> j < n_metrics,
    ensures
        compare_ok(
            rows@,
            recs(records@),
            low_revision,
            high_revision,
            n_metrics as nat,
            criterion,
        ),
{
    broadcast use vstd::seq_lib::group_to_multiset_ensures;

    let ghost s = recs(records@);
    let ghost n = n_metrics as nat;
    let ghost lo = low_revision;
    let ghost hi = high_revision;
    let agg_lo = aggregate(records, low_revision, n_metrics, Option::None);
    let agg_hi = aggregate(records, high_revision, n_metrics, Option::None);
    let ghost dlo = distinct_ids(s, lo, Option::None);
    let ghost dhi = distinct_ids(s, hi, Option::None);
    proof {
        lemma_distinct_ids_sound(s, lo, Option::None);
        lemma_distinct_ids_sound(s, hi, Option::None);
    }

    let mut raw: Vec<ComparisonRow> = Vec::new();
    let mut k: usize = 0;
    while k < agg_lo.len()
        invariant
            k <= agg_lo@.len(),
            forall|t: int|
                0 <= t < raw@.len() ==> row_ok((#[trigger] raw@[t])@, s, lo, hi, n) && joined_id(
                    s,
                    lo,
                    hi,
                    raw@[t]@.id,
                ),
            forall|t: int|
                0 <= t < raw@.len() ==> exists|u: int|
                    0 <= u < k && (#[trigger] raw@[t])@.id == dlo[u],
            forall|t1: int, t2: int|
                0 <= t1 < raw@.len() && 0 <= t2 < raw@.len() && t1 != t2 ==> (
                #[trigger] raw@[t1])@.id != (#[trigger] raw@[t2])@.id,
            forall|id: Seq<char>|
                (joined_id(s, lo, hi, id) && exists|u: int| 0 <= u < k && dlo[u] == id)
                    ==> exists|t: int| 0 <= t < raw@.len() && (#[trigger] raw@[t])@.id == id,
        decreases agg_lo@.len() - k,
    {
        let ghost raw0 = raw@;
        proof {
            assert(agg_lo@.map_values(|st: AggregatedStat| st.testcase_id@)[k as int] == agg_lo@[k
                as int].testcase_id@);
            assert(agg_lo@[k as int].testcase_id@ == dlo[k as int]);
        }
        match find_stat(&agg_hi, &agg_lo[k].testcase_id) {
            Option::Some(h) => {
                proof {
                    assert(agg_hi@.map_values(|st: AggregatedStat| st.testcase_id@)[h as int]
                        == agg_hi@[h as int].testcase_id@);
                    assert(dhi[h as int] == dlo[k as int]);
                    assert(dhi.contains(dhi[h as int]));
                    assert(dlo.contains(dlo[k as int]));
                    let rl = choose|r: RecView|
                        s.contains(r) && #[trigger] sel_match(r, lo, Option::None) && r.id == dlo[k
                            as int];
                    assert(by_id(lo, dlo[k as int])(rl));
                    let rh = choose|r: RecView|
                        s.contains(r) && #[trigger] sel_match(r, hi, Option::None) && r.id == dhi[h
                            as int];
                    assert(by_id(hi, dlo[k as int])(rh));
                    assert(joined_id(s, lo, hi, dlo[k as int]));
                }
                let low = copy_values(&agg_lo[k].means);
                let high = copy_values(&agg_hi[h].means);
                let name = normalize_name(agg_lo[k].testcase_id.as_str());
                let mut changes: Vec<ChangeResult> = Vec::new();
                let mut j: usize = 0;
                while j < n_metrics
                    invariant
                        j <= n_metrics,
                        low@.len() == n_metrics,
                        high@.len() == n_metrics,
                        changes@.len() == j,
                        forall|t: int|
                            0 <= t < j ==> (#[trigger] changes@[t]) == change_spec(
                                low@[t],
                                high@[t],
                            ),
                    decreases n_metrics - j,
                {
                    changes.push(relative_change(low[j], high[j]));
                    j = j + 1;
                }
                let row = ComparisonRow {
                    testcase_id: agg_lo[k].testcase_id.clone(),
                    name,
                    low,
                    high,
                    changes,
                };
                proof {
                    assert(row@.id == dlo[k as int]);
                    assert(row_ok(row@, s, lo, hi, n));
                }
                raw.push(row);
                proof {
                    assert(raw@ == raw0.push(row));
                    assert(forall|t: int| 0 <= t < raw0.len() ==> raw@[t] == raw0[t]);
                    assert(raw@[raw0.len() as int] == row);
                    assert forall|t1: int, t2: int|
                        0 <= t1 < raw@.len() && 0 <= t2 < raw@.len() && t1 != t2 implies (
                    #[trigger] raw@[t1])@.id != (#[trigger] raw@[t2])@.id by {
                        if t1 < raw0.len() && t2 < raw0.len() {
                        } else {
                            let told = if t1 < raw0.len() {
                                t1
                            } else {
                                t2
                            };
                            let u = choose|u: int|
                                0 <= u < k && (#[trigger] raw0[told])@.id == dlo[u];
                            assert(dlo[u] != dlo[k as int]);
                        }
                    }
                }
            },
            Option::None => {
                proof {
                    if joined_id(s, lo, hi, dlo[k as int]) {
                        let rh = choose|r: RecView|
                            s.contains(r) && (#[trigger] by_id(hi, dlo[k as int])(r));
                        assert(sel_match(rh, hi, Option::None));
                        assert(id_present(s, hi, Option::None, rh.id));
                        assert(dhi.contains(dlo[k as int]));
                        let u = choose|u: int| 0 <= u < dhi.len() && dhi[u] == dlo[k as int];
                        assert(agg_hi@[u].testcase_id@ == dhi[u]);
                        assert(false);
                    }
                }
            },
        }
        proof {
            assert forall|id: Seq<char>|
                (joined_id(s, lo, hi, id) && exists|u: int| 0 <= u < k + 1 && dlo[u] == id)
                    implies exists|t: int|
                0 <= t < raw@.len() && (#[trigger] raw@[t])@.id == id by {
                let u = choose|u: int| 0 <= u < k + 1 && dlo[u] == id;
                if u < k {
                } else {
                    assert(dlo[k as int] == id);
                }
            }
        }
        k = k + 1;
    }
    proof {
        assert forall|id: Seq<char>| #[trigger] joined_id(s, lo, hi, id) implies exists|u: int|
            0 <= u < dlo.len() && dlo[u] == id by {
            let rl = choose|r: RecView| s.contains(r) && (#[trigger] by_id(lo, id)(r));
            assert(sel_match(rl, lo, Option::None));
            assert(id_present(s, lo, Option::None, rl.id));
            assert(dlo.contains(id));
        }
        assert(agg_lo@.len() == dlo.len());
    }

    let ghost rawseq = raw@;
    proof {
        assert forall|t1: int, t2: int|
            0 <= t1 < rawseq.len() && 0 <= t2 < rawseq.len() && t1 != t2 implies rawseq[t1]
            != rawseq[t2] by {
            assert(rawseq[t1]@.id != rawseq[t2]@.id);
        }
        assert(rawseq.no_duplicates());
        rawseq.lemma_multiset_has_no_duplicates();
    }
    let rows = sort_rows(raw, &criterion, n_metrics);
    proof {
        assert forall|x: ComparisonRow|
            rows@.to_multiset().contains(x) implies rows@.to_multiset().count(x) == 1 by {
            assert(rawseq.to_multiset().contains(x));
        }
        rows@.lemma_multiset_has_no_duplicates_conv();
        assert forall|k1: int, k2: int|
            0 <= k1 < rows@.len() && 0 <= k2 < rows@.len() && k1 != k2 implies (
        #[trigger] rows@[k1])@.id != (#[trigger] rows@[k2])@.id by {
            assert(rows@[k1] != rows@[k2]);
            if rows@[k1]@.id == rows@[k2]@.id {
                assert(rows@.contains(rows@[k1]) && rows@.contains(rows@[k2]));
                assert(rows@.to_multiset().count(rows@[k1]) > 0);
                assert(rows@.to_multiset().count(rows@[k2]) > 0);
                assert(rawseq.to_multiset().count(rows@[k1]) > 0);
                assert(rawseq.to_multiset().count(rows@[k2]) > 0);
                assert(rawseq.contains(rows@[k1]) && rawseq.contains(rows@[k2]));
                let t1 = choose|t: int| 0 <= t < rawseq.len() && rawseq[t] == rows@[k1];
                let t2 = choose|t: int| 0 <= t < rawseq.len() && rawseq[t] == rows@[k2];
                assert(t1 != t2);
                assert(rawseq[t1]@.id != rawseq[t2]@.id);
            }
        }
        assert forall|k: int|
            0 <= k < rows@.len() implies row_ok((#[trigger] rows@[k])@, s, lo, hi, n) && joined_id(
            s,
            lo,
            hi,
            rows@[k]@.id,
        ) by {
            assert(rows@.contains(rows@[k]));
            assert(rows@.to_multiset().count(rows@[k]) > 0);
            assert(rawseq.to_multiset().count(rows@[k]) > 0);
            assert(rawseq.contains(rows@[k]));
            let t = choose|t: int| 0 <= t < rawseq.len() && rawseq[t] == rows@[k];
            assert(row_ok(rawseq[t]@, s, lo, hi, n));
        }
        assert forall|id: Seq<char>|
            #[trigger] joined_id(s, lo, hi, id) implies exists|k: int|
            0 <= k < rows@.len() && (#[trigger] rows@[k])@.id == id by {
            let t = choose|t: int| 0 <= t < rawseq.len() && (#[trigger] rawseq[t])@.id == id;
            assert(rawseq.contains(rawseq[t]));
            assert(rawseq.to_multiset().count(rawseq[t]) > 0);
            assert(rows@.to_multiset().count(rawseq[t]) > 0);
            assert(rows@.contains(rawseq[t]));
            let k = choose|k: int| 0 <= k < rows@.len() && rows@[k] == rawseq[t];
            assert(rows@[k]@.id == id);
        }
    }
    rows
}

/// A result set sorted by the name criterion lists its normalized
/// display names in lexicographically non-decreasing order.
pub proof fn lemma_name_order_is_lexicographic(rows: Seq<ComparisonRow>, x: int, y: int)
    requires
        rows_sorted(rows, SortCriterion::Name),
        0 <= x <= y < rows.len(),
    ensures
        lex_leq(rows[x]@.name, rows[y]@.name),
{
    if x < y {
        assert(row_leq_at(SortCriterion::Name, rows[x]@, rows[y]@));
    } else {
        lemma_lex_total(rows[x]@.name, rows[y]@.name);
    }
}

} // verus!
