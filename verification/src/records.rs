//! Raw benchmark records, their mathematical model, and the grouped
//! mean that the aggregator computes; aggregation is order-independent,
//! which is proved here once for every grouping the engine uses.

use vstd::prelude::*;
use vstd::seq_lib::lemma_fold_left_permutation;
use crate::names::contains_seq;
use crate::value::{div_round_nearest, MetricValue, MAX_ABS_VALUE};

verus! {

/// One raw observation from the measurement store: which revision was
/// measured, which testcase ran (a raw storage path, not yet
/// normalized), and one value per metric of the testcase's table.
/// Repeated runs produce several records with the same revision and
/// identifier.
pub struct BenchmarkRecord {
    pub revision: u32,
    pub testcase_id: String,
    pub values: Vec<MetricValue>,
}

/// The mathematical model of a record.
pub struct RecView {
    pub revision: u32,
    pub id: Seq<char>,
    pub vals: Seq<MetricValue>,
}

impl View for BenchmarkRecord {
    type V = RecView;

    open spec fn view(&self) -> RecView {
        RecView { revision: self.revision, id: self.testcase_id@, vals: self.values@ }
    }
}

impl BenchmarkRecord {
    /// Builds a record; the helper keeps construction uniform between
    /// the surrounding application and the tests.
    pub fn new(revision: u32, testcase_id: String, values: Vec<MetricValue>) -> (r:
        BenchmarkRecord)
        ensures
            r@ == (RecView { revision, id: testcase_id@, vals: values@ }),
    {
        BenchmarkRecord { revision, testcase_id, values }
    }
}

/// The model of a record vector.
pub open spec fn recs(records: Seq<BenchmarkRecord>) -> Seq<RecView> {
    records.map_values(|r: BenchmarkRecord| r@)
}

impl RecView {
    /// A record is well formed for a table of `n_metrics` metrics when
    /// it carries exactly one value per metric, each within the
    /// fixed-point domain.
    pub open spec fn wf(self, n_metrics: nat) -> bool {
        &&& self.vals.len() == n_metrics
        &&& forall|j: int| 0 <= j < n_metrics ==> (#[trigger] self.vals[j]).wf()
    }
}

/// All records of a sequence are well formed for `n_metrics` metrics.
pub open spec fn wf_recs(s: Seq<RecView>, n_metrics: nat) -> bool {
    forall|i: int| 0 <= i < s.len() ==> (#[trigger] s[i]).wf(n_metrics)
}

// ---------------------------------------------------------------------
// Grouping predicates
// ---------------------------------------------------------------------
/// The records of one aggregation group: one revision, one exact raw
/// identifier.
pub open spec fn by_id(revision: u32, id: Seq<char>) -> spec_fn(RecView) -> bool {
    |r: RecView| r.revision == revision && r.id == id
}

/// The records a time series draws from: one revision, any identifier
/// matched by the (substring) name filter.
pub open spec fn by_filter(revision: u32, filter: Seq<char>) -> spec_fn(RecView) -> bool {
    |r: RecView| r.revision == revision && contains_seq(r.id, filter)
}

// ---------------------------------------------------------------------
// Grouped statistics
// ---------------------------------------------------------------------
/// How many records satisfy `p`.
pub open spec fn count_where(s: Seq<RecView>, p: spec_fn(RecView) -> bool) -> int {
    s.fold_left(
        0 as int,
        |acc: int, r: RecView|
            if p(r) {
                acc + 1
            } else {
                acc
            },
    )
}

/// The sum of the finite values of metric `j` over the records
/// satisfying `p`.
pub open spec fn sum_where(s: Seq<RecView>, p: spec_fn(RecView) -> bool, j: int) -> int {
    s.fold_left(
        0 as int,
        |acc: int, r: RecView|
            if p(r) && r.vals[j] is Finite {
                acc + r.vals[j].milli()
            } else {
                acc
            },
    )
}

/// Whether some record satisfying `p` carries a non-finite value for
/// metric `j` (one degenerate run poisons the group's mean).
pub open spec fn has_nonfinite_where(s: Seq<RecView>, p: spec_fn(RecView) -> bool, j: int) -> bool {
    exists|r: RecView| s.contains(r) && #[trigger] p(r) && !(r.vals[j] is Finite)
}

/// Whether any record satisfies `p`.
pub open spec fn present_where(s: Seq<RecView>, p: spec_fn(RecView) -> bool) -> bool {
    exists|r: RecView| s.contains(r) && #[trigger] p(r)
}

/// The arithmetic mean of metric `j` over the records satisfying `p`,
/// rounded to the fixed-point resolution; non-finite as soon as the
/// group contains a degenerate value.  Meaningful only when the group is
/// non-empty.
pub open spec fn mean_where(s: Seq<RecView>, p: spec_fn(RecView) -> bool, j: int) -> MetricValue
    recommends
        count_where(s, p) > 0,
{
    if has_nonfinite_where(s, p, j) {
        MetricValue::NonFinite
    } else {
        MetricValue::Finite(div_round_nearest(sum_where(s, p, j), count_where(s, p)) as i64)
    }
}

impl MetricValue {
    /// The thousandths count of a finite value (0 for a non-finite one).
    pub open spec fn milli(self) -> int {
        match self {
            MetricValue::Finite(v) => v as int,
            MetricValue::NonFinite => 0,
        }
    }
}

// ---------------------------------------------------------------------
// Basic facts about the grouped statistics
// ---------------------------------------------------------------------
/// The count is non-negative, positive exactly when a matching record
/// is present, and at most the number of records.
pub proof fn lemma_count_where_bounds(s: Seq<RecView>, p: spec_fn(RecView) -> bool)
    ensures
        0 <= count_where(s, p) <= s.len(),
        count_where(s, p) > 0 <==> present_where(s, p),
    decreases s.len(),
{
    if s.len() == 0 {
        assert(!present_where(s, p)) by {
            assert(forall|r: RecView| !s.contains(r));
        }
    } else {
        lemma_count_where_bounds(s.drop_last(), p);
        assert(count_where(s, p) == count_where(s.drop_last(), p) + if p(s.last()) {
            1 as int
        } else {
            0 as int
        });
        if p(s.last()) {
            assert(s.contains(s.last()));
            assert(present_where(s, p));
        } else {
            if present_where(s.drop_last(), p) {
                let r = choose|r: RecView| s.drop_last().contains(r) && #[trigger] p(r);
                assert(s.contains(r)) by {
                    let i = choose|i: int|
                        0 <= i < s.drop_last().len() && s.drop_last()[i] == r;
                    assert(s[i] == r);
                }
            }
            if present_where(s, p) {
                let r = choose|r: RecView| s.contains(r) && #[trigger] p(r);
                let i = choose|i: int| 0 <= i < s.len() && s[i] == r;
                assert(i < s.len() - 1 ==> s.drop_last().contains(r)) by {
                    if i < s.len() - 1 {
                        assert(s.drop_last()[i] == r);
                    }
                }
                assert(present_where(s.drop_last(), p));
            }
        }
    }
}

/// With well-formed records the group sum stays within `count` times
/// the value bound; every intermediate total of the aggregator fits.
pub proof fn lemma_sum_where_bound(s: Seq<RecView>, p: spec_fn(RecView) -> bool, j: int, n: nat)
    requires
        wf_recs(s, n),
        0 <= j < n,
    ensures
        -count_where(s, p) * (MAX_ABS_VALUE as int) <= sum_where(s, p, j),
        sum_where(s, p, j) <= count_where(s, p) * (MAX_ABS_VALUE as int),
    decreases s.len(),
{
    let m = MAX_ABS_VALUE as int;
    if s.len() == 0 {
    } else {
        assert(wf_recs(s.drop_last(), n)) by {
            assert(forall|i: int|
                0 <= i < s.len() - 1 ==> s.drop_last()[i] == (#[trigger] s[i]));
        }
        lemma_sum_where_bound(s.drop_last(), p, j, n);
        let c0 = count_where(s.drop_last(), p);
        let c1 = count_where(s, p);
        let s0 = sum_where(s.drop_last(), p, j);
        let s1 = sum_where(s, p, j);
        lemma_count_where_bounds(s.drop_last(), p);
        assert(s.last().wf(n));
        assert((c0 + 1) * m == c0 * m + m) by (nonlinear_arith);
        assert(-(c0 + 1) * m == -(c0 * m) - m) by (nonlinear_arith);
        if p(s.last()) {
            assert(c1 == c0 + 1);
            if s.last().vals[j] is Finite {
                assert(s1 == s0 + s.last().vals[j].milli());
                assert(-m <= s.last().vals[j].milli() <= m);
            } else {
                assert(s1 == s0);
            }
        } else {
            assert(c1 == c0);
            assert(s1 == s0);
        }
    }
}

/// Dropping the last record leaves every prefix statistic in place;
/// spelled out so loops can step their invariants.
pub proof fn lemma_where_step(s: Seq<RecView>, p: spec_fn(RecView) -> bool, j: int)
    requires
        s.len() > 0,
    ensures
        count_where(s, p) == count_where(s.drop_last(), p) + if p(s.last()) {
            1 as int
        } else {
            0 as int
        },
        sum_where(s, p, j) == sum_where(s.drop_last(), p, j) + if p(s.last())
            && s.last().vals[j] is Finite {
            s.last().vals[j].milli()
        } else {
            0 as int
        },
        has_nonfinite_where(s, p, j) == (has_nonfinite_where(s.drop_last(), p, j) || (p(s.last())
            && !(s.last().vals[j] is Finite))),
{
    if p(s.last()) && !(s.last().vals[j] is Finite) {
        assert(s.contains(s.last()));
    }
    if has_nonfinite_where(s.drop_last(), p, j) {
        let r = choose|r: RecView|
            s.drop_last().contains(r) && #[trigger] p(r) && !(r.vals[j] is Finite);
        let i = choose|i: int| 0 <= i < s.drop_last().len() && s.drop_last()[i] == r;
        assert(s[i] == r);
        assert(s.contains(r));
    }
    if has_nonfinite_where(s, p, j) && !(p(s.last()) && !(s.last().vals[j] is Finite)) {
        let r = choose|r: RecView| s.contains(r) && #[trigger] p(r) && !(r.vals[j] is Finite);
        let i = choose|i: int| 0 <= i < s.len() && s[i] == r;
        if i < s.len() - 1 {
            assert(s.drop_last()[i] == r);
            assert(s.drop_last().contains(r));
        }
    }
}

// ---------------------------------------------------------------------
// Aggregation is order-independent
// ---------------------------------------------------------------------
/// Two record sequences holding the same records (as a multiset) have
/// the same group count, sum, degenerate flag and mean, for every
/// grouping and every metric: aggregation does not depend on the order
/// in which the measurement store hands records back.
pub proof fn lemma_aggregation_order_independent(
    s1: Seq<RecView>,
    s2: Seq<RecView>,
    p: spec_fn(RecView) -> bool,
    j: int,
)
    requires
        s1.to_multiset() == s2.to_multiset(),
    ensures
        count_where(s1, p) == count_where(s2, p),
        sum_where(s1, p, j) == sum_where(s2, p, j),
        has_nonfinite_where(s1, p, j) == has_nonfinite_where(s2, p, j),
        mean_where(s1, p, j) == mean_where(s2, p, j),
{
    broadcast use vstd::seq_lib::group_to_multiset_ensures;

    let fc = |acc: int, r: RecView|
        if p(r) {
            acc + 1
        } else {
            acc
        };
    let fs = |acc: int, r: RecView|
        if p(r) && r.vals[j] is Finite {
            acc + r.vals[j].milli()
        } else {
            acc
        };
    lemma_fold_left_permutation(s1, s2, fc, 0 as int);
    lemma_fold_left_permutation(s1, s2, fs, 0 as int);
    if has_nonfinite_where(s1, p, j) {
        let r = choose|r: RecView| s1.contains(r) && #[trigger] p(r) && !(r.vals[j] is Finite);
        assert(s1.to_multiset().count(r) > 0);
        assert(s2.contains(r));
    }
    if has_nonfinite_where(s2, p, j) {
        let r = choose|r: RecView| s2.contains(r) && #[trigger] p(r) && !(r.vals[j] is Finite);
        assert(s2.to_multiset().count(r) > 0);
        assert(s1.contains(r));
    }
}

} // verus!
