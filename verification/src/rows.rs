//! Comparison rows, the selectable orderings over them, and the sort
//! that puts a result set into its reported order.

use vstd::prelude::*;
use crate::change::ChangeResult;
use crate::names::{lemma_lex_total, lemma_lex_trans, lex_leq, str_lex_leq};
use crate::value::{MetricValue, MAX_ABS_VALUE};

verus! {

/// The ordering a caller can ask of a comparison result: by display
/// name, or by one metric's ratio of low-revision mean to high-revision
/// mean (ascending, i.e. most regressed first).
#[derive(Clone, Copy, Debug, PartialEq, Eq, Structural)]
pub enum SortCriterion {
    Name,
    Metric(usize),
}

/// One joined row of a comparison: a testcase present at both compared
/// revisions, with its per-metric means at each and the classified
/// relative change of each metric.
pub struct ComparisonRow {
    /// The raw identifier the join was made on.
    pub testcase_id: String,
    /// The normalized display name.
    pub name: String,
    /// Per-metric mean at the low revision.
    pub low: Vec<MetricValue>,
    /// Per-metric mean at the high revision.
    pub high: Vec<MetricValue>,
    /// Per-metric classified relative change, low to high.
    pub changes: Vec<ChangeResult>,
}

/// The mathematical model of a row.
pub struct RowView {
    pub id: Seq<char>,
    pub name: Seq<char>,
    pub low: Seq<MetricValue>,
    pub high: Seq<MetricValue>,
    pub changes: Seq<ChangeResult>,
}

impl View for ComparisonRow {
    type V = RowView;

    open spec fn view(&self) -> RowView {
        RowView {
            id: self.testcase_id@,
            name: self.name@,
            low: self.low@,
            high: self.high@,
            changes: self.changes@,
        }
    }
}

/// A row carries one well-formed value pair per metric.
pub open spec fn row_vals_wf(row: RowView, n: nat) -> bool {
    &&& row.low.len() == n
    &&& row.high.len() == n
    &&& forall|j: int| 0 <= j < n ==> (#[trigger] row.low[j]).wf() && row.high[j].wf()
}

// ---------------------------------------------------------------------
// The metric ordering
// ---------------------------------------------------------------------
/// The sort ratio `low mean / high mean` of metric `j` is defined when
/// both means are finite and the high mean is not zero.
pub open spec fn ratio_defined(row: RowView, j: int) -> bool {
    &&& row.low[j] is Finite
    &&& row.high[j] is Finite
    &&& row.high[j].milli() != 0
}

/// Numerator of the sort ratio, sign-normalized so the denominator is
/// positive.
pub open spec fn ratio_num(row: RowView, j: int) -> int {
    if row.high[j].milli() > 0 {
        row.low[j].milli()
    } else {
        -row.low[j].milli()
    }
}

/// Positive denominator of the sort ratio.
pub open spec fn ratio_den(row: RowView, j: int) -> int {
    if row.high[j].milli() > 0 {
        row.high[j].milli()
    } else {
        -row.high[j].milli()
    }
}

/// Ascending by the exact ratio of metric `j`, with rows whose ratio is
/// undefined ordered before every defined one (where the storage layer
/// would sort a null).
pub open spec fn metric_row_leq(a: RowView, b: RowView, j: int) -> bool {
    if !ratio_defined(a, j) {
        true
    } else if !ratio_defined(b, j) {
        false
    } else {
        ratio_num(a, j) * ratio_den(b, j) <= ratio_num(b, j) * ratio_den(a, j)
    }
}

/// The row ordering a criterion stands for.
pub open spec fn row_leq_at(crit: SortCriterion, a: RowView, b: RowView) -> bool {
    match crit {
        SortCriterion::Name => lex_leq(a.name, b.name),
        SortCriterion::Metric(j) => metric_row_leq(a, b, j as int),
    }
}

/// A row sequence ordered by the criterion.
pub open spec fn rows_sorted(s: Seq<ComparisonRow>, crit: SortCriterion) -> bool {
    forall|x: int, y: int| 0 <= x < y < s.len() ==> #[trigger] row_leq_at(crit, s[x]@, s[y]@)
}

/// Every criterion yields a total ordering: any two rows compare.
pub proof fn lemma_row_leq_total(crit: SortCriterion, a: RowView, b: RowView)
    ensures
        row_leq_at(crit, a, b) || row_leq_at(crit, b, a),
{
    match crit {
        SortCriterion::Name => lemma_lex_total(a.name, b.name),
        SortCriterion::Metric(_) => {},
    }
}

/// Every criterion's ordering is transitive.
pub proof fn lemma_row_leq_trans(crit: SortCriterion, a: RowView, b: RowView, c: RowView)
    requires
        row_leq_at(crit, a, b),
        row_leq_at(crit, b, c),
    ensures
        row_leq_at(crit, a, c),
{
    match crit {
        SortCriterion::Name => lemma_lex_trans(a.name, b.name, c.name),
        SortCriterion::Metric(jj) => {
            let j = jj as int;
            if ratio_defined(a, j) {
                let na = ratio_num(a, j);
                let nb = ratio_num(b, j);
                let nc = ratio_num(c, j);
                let da = ratio_den(a, j);
                let db = ratio_den(b, j);
                let dc = ratio_den(c, j);
                assert(da > 0 && db > 0 && dc > 0);
                assert(na * db <= nb * da);
                assert(nb * dc <= nc * db);
                assert((na * dc) * db <= (nc * da) * db) by (nonlinear_arith)
                    requires
                        na * db <= nb * da,
                        nb * dc <= nc * db,
                        da > 0,
                        db > 0,
                        dc > 0,
                ;
                vstd::arithmetic::mul::lemma_mul_inequality_converse(na * dc, nc * da, db);
            }
        },
    }
}

/// Compares two rows under the criterion.
pub fn row_le(a: &ComparisonRow, b: &ComparisonRow, crit: &SortCriterion, n_metrics: usize) -> (r:
    bool)
    requires
        row_vals_wf(a@, n_metrics as nat),
        row_vals_wf(b@, n_metrics as nat),
        crit matches SortCriterion::Metric(j) ==> j < n_metrics,
    ensures
        r == row_leq_at(*crit, a@, b@),
{
    match crit {
        SortCriterion::Name => str_lex_leq(a.name.as_str(), b.name.as_str()),
        SortCriterion::Metric(j) => {
            let j = *j;
            let a_ratio = ratio_parts(&a.low, &a.high, j);
            let b_ratio = ratio_parts(&b.low, &b.high, j);
            match (a_ratio, b_ratio) {
                (Option::None, _) => true,
                (Option::Some(_), Option::None) => false,
                (Option::Some((na, da)), Option::Some((nb, db))) => {
                    proof {
                        let m = MAX_ABS_VALUE as int;
                        assert(-m * m <= (na as int) * (db as int) <= m * m) by (nonlinear_arith)
                            requires
                                -m <= na as int <= m,
                                0 < db as int <= m,
                                m > 0,
                        ;
                        assert(-m * m <= (nb as int) * (da as int) <= m * m) by (nonlinear_arith)
                            requires
                                -m <= nb as int <= m,
                                0 < da as int <= m,
                                m > 0,
                        ;
                    }
                    na as i128 * db as i128 <= nb as i128 * da as i128
                },
            }
        },
    }
}

/// The sign-normalized `(numerator, denominator)` of one row's sort
/// ratio, or `None` when the ratio is undefined.
fn ratio_parts(low: &Vec<MetricValue>, high: &Vec<MetricValue>, j: usize) -> (r: Option<(i64, i64)>)
    requires
        j < low@.len(),
        j < high@.len(),
        low@[j as int].wf(),
        high@[j as int].wf(),
    ensures
        ({
            let row_low = low@;
            let row_high = high@;
            match r {
                Option::Some(p) => {
                    &&& row_low[j as int] is Finite
                    &&& row_high[j as int] is Finite
                    &&& row_high[j as int].milli() != 0
                    &&& p.1 > 0
                    &&& if row_high[j as int].milli() > 0 {
                        p.0 == row_low[j as int].milli() && p.1 == row_high[j as int].milli()
                    } else {
                        p.0 == -row_low[j as int].milli() && p.1 == -row_high[j as int].milli()
                    }
                    &&& -MAX_ABS_VALUE <= p.0 <= MAX_ABS_VALUE
                    &&& p.1 <= MAX_ABS_VALUE
                },
                Option::None => !(row_low[j as int] is Finite && row_high[j as int] is Finite
                    && row_high[j as int].milli() != 0),
            }
        }),
{
    match (low[j], high[j]) {
        (MetricValue::Finite(l), MetricValue::Finite(h)) => {
            if h == 0 {
                Option::None
            } else if h > 0 {
                Option::Some((l, h))
            } else {
                Option::Some((-l, -h))
            }
        },
        _ => Option::None,
    }
}

/// Sorts a result set by the criterion.  The contract pins the output
/// down to holding exactly the input rows (as a multiset) in an order
/// that is non-decreasing by the criterion; how rows with equal keys
/// stand among themselves is left open by the contract.
pub fn sort_rows(rows: Vec<ComparisonRow>, crit: &SortCriterion, n_metrics: usize) -> (out: Vec<
    ComparisonRow,
>)
    requires
        forall|k: int| 0 <= k < rows@.len() ==> row_vals_wf((#[trigger] rows@[k])@, n_metrics as nat),
        crit matches SortCriterion::Metric(j) ==> j < n_metrics,
    ensures
        out@.len() == rows@.len(),
        out@.to_multiset() == rows@.to_multiset(),
        rows_sorted(out@, *crit),
        forall|k: int| 0 <= k < out@.len() ==> row_vals_wf((#[trigger] out@[k])@, n_metrics as nat),
{
    broadcast use vstd::seq_lib::group_to_multiset_ensures;
    broadcast use vstd::seq_lib::to_multiset_insert;
    broadcast use vstd::multiset::group_multiset_axioms;

    let ghost orig = rows@;
    let mut rem = rows;
    let mut out: Vec<ComparisonRow> = Vec::new();
    while rem.len() > 0
        invariant
            out@.to_multiset().add(rem@.to_multiset()) =~= orig.to_multiset(),
            out@.len() + rem@.len() == orig.len(),
            rows_sorted(out@, *crit),
            forall|k: int|
                0 <= k < out@.len() ==> row_vals_wf((#[trigger] out@[k])@, n_metrics as nat),
            forall|k: int|
                0 <= k < rem@.len() ==> row_vals_wf((#[trigger] rem@[k])@, n_metrics as nat),
        decreases rem@.len(),
    {
        let ghost rem0 = rem@;
        let ghost out0 = out@;
        let x = rem.remove(0);
        proof {
            assert(rem@ == rem0.remove(0));
            assert(forall|k: int|
                0 <= k < rem@.len() ==> (#[trigger] rem@[k]) == rem0[k + 1]);
        }
        let mut pos: usize = 0;
        while pos < out.len() && row_le(&out[pos], &x, crit, n_metrics)
            invariant
                pos <= out@.len(),
                forall|t: int| 0 <= t < pos ==> #[trigger] row_leq_at(*crit, out@[t]@, x@),
            decreases out@.len() - pos,
        {
            pos = pos + 1;
        }
        proof {
            if pos < out@.len() {
                lemma_row_leq_total(*crit, out@[pos as int]@, x@);
            }
            out0.insert_ensures(pos as int, x);
            assert forall|a: int, b: int|
                0 <= a < b < out0.insert(pos as int, x).len() implies #[trigger] row_leq_at(
                *crit,
                out0.insert(pos as int, x)[a]@,
                out0.insert(pos as int, x)[b]@,
            ) by {
                let s2 = out0.insert(pos as int, x);
                if b < pos {
                    assert(s2[a] == out0[a] && s2[b] == out0[b]);
                } else if a > pos {
                    assert(s2[a] == out0[a - 1] && s2[b] == out0[b - 1]);
                } else if a == pos {
                    assert(s2[a] == x && s2[b] == out0[b - 1]);
                    assert(row_leq_at(*crit, x@, out0[pos as int]@));
                    if b - 1 > pos {
                        lemma_row_leq_trans(*crit, x@, out0[pos as int]@, out0[b - 1]@);
                    }
                } else if b == pos {
                    assert(s2[a] == out0[a] && s2[b] == x);
                } else {
                    assert(s2[a] == out0[a] && s2[b] == out0[b - 1]);
                    assert(row_leq_at(*crit, out0[a]@, x@));
                    if b - 1 == pos {
                        assert(row_leq_at(*crit, x@, out0[b - 1]@));
                        lemma_row_leq_trans(*crit, out0[a]@, x@, out0[b - 1]@);
                    } else {
                        assert(row_leq_at(*crit, out0[a]@, out0[b - 1]@));
                    }
                }
            }
        }
        out.insert(pos, x);
        proof {
            assert(out@ == out0.insert(pos as int, x));
            assert(out@.to_multiset().add(rem@.to_multiset()) =~= orig.to_multiset());
            assert forall|k: int|
                0 <= k < out@.len() implies row_vals_wf((#[trigger] out@[k])@, n_metrics as nat) by {
                out0.insert_ensures(pos as int, x);
                if k < pos {
                    assert(out@[k] == out0[k]);
                } else if k > pos {
                    assert(out@[k] == out0[k - 1]);
                } else {
                    assert(out@[k] == x);
                }
            }
        }
    }
    proof {
        assert(rem@.to_multiset().len() == 0);
        assert(out@.to_multiset() =~= orig.to_multiset());
    }
    out
}

} // verus!
