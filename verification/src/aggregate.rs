//! The metric aggregator: groups raw records and computes per-group
//! means, either for one exact identifier (the comparison join) or for
//! every identifier matching a name filter (the time-series builder).

use vstd::prelude::*;
use vstd::arithmetic::mul::lemma_mul_inequality;
use crate::names::{contains_seq, str_contains};
use crate::records::{
    by_filter, by_id, count_where, has_nonfinite_where, lemma_count_where_bounds,
    lemma_sum_where_bound, lemma_where_step, mean_where, present_where, recs, sum_where, wf_recs,
    BenchmarkRecord, RecView,
};
use crate::value::{div_round_i128, lemma_div_round_nearest_bound, MetricValue, MAX_ABS_VALUE};

verus! {

/// The model of an optional name filter.
pub open spec fn opt_str_view(o: Option<&str>) -> Option<Seq<char>> {
    match o {
        Option::None => Option::None,
        Option::Some(f) => Option::Some(f@),
    }
}

/// Whether a record is selected at all: right revision, and (with a
/// name filter) an identifier containing the filter text.
pub open spec fn sel_match(r: RecView, revision: u32, filter: Option<Seq<char>>) -> bool {
    &&& r.revision == revision
    &&& match filter {
        Option::None => true,
        Option::Some(f) => contains_seq(r.id, f),
    }
}

/// The distinct raw identifiers of the selected records, in order of
/// first appearance.  This fixes both which groups an aggregation
/// produces and the order it produces them in.
pub open spec fn distinct_ids(s: Seq<RecView>, revision: u32, filter: Option<Seq<char>>) -> Seq<
    Seq<char>,
>
    decreases s.len(),
{
    if s.len() == 0 {
        Seq::empty()
    } else {
        let prev = distinct_ids(s.drop_last(), revision, filter);
        if sel_match(s.last(), revision, filter) && !prev.contains(s.last().id) {
            prev.push(s.last().id)
        } else {
            prev
        }
    }
}

/// Membership in a sequence is membership in the sequence without its
/// last element, or equality with that element.
proof fn lemma_contains_drop_last<A>(s: Seq<A>, x: A)
    requires
        s.len() > 0,
    ensures
        s.contains(x) <==> (s.drop_last().contains(x) || s.last() == x),
{
    if s.drop_last().contains(x) {
        let i = choose|i: int| 0 <= i < s.drop_last().len() && s.drop_last()[i] == x;
        assert(s[i] == x);
    }
    if s.contains(x) {
        let i = choose|i: int| 0 <= i < s.len() && s[i] == x;
        if i < s.len() - 1 {
            assert(s.drop_last()[i] == x);
        }
    }
}

/// There is a selected record with identifier `id`.
pub open spec fn id_present(
    s: Seq<RecView>,
    revision: u32,
    filter: Option<Seq<char>>,
    id: Seq<char>,
) -> bool {
    exists|r: RecView| s.contains(r) && #[trigger] sel_match(r, revision, filter) && r.id == id
}

/// The distinct identifier list holds each selected identifier exactly
/// once, and nothing else.
pub proof fn lemma_distinct_ids_sound(s: Seq<RecView>, revision: u32, filter: Option<Seq<char>>)
    ensures
        distinct_ids(s, revision, filter).no_duplicates(),
        forall|id: Seq<char>|
            #[trigger] distinct_ids(s, revision, filter).contains(id) <==> id_present(
                s,
                revision,
                filter,
                id,
            ),
    decreases s.len(),
{
    let dids = distinct_ids(s, revision, filter);
    if s.len() == 0 {
        assert(forall|id: Seq<char>| !dids.contains(id));
        assert(forall|r: RecView| !s.contains(r));
    } else {
        lemma_distinct_ids_sound(s.drop_last(), revision, filter);
        let prev = distinct_ids(s.drop_last(), revision, filter);
        let last = s.last();
        assert(s.contains(last));
        assert forall|id: Seq<char>| #[trigger] dids.contains(id) <==> (prev.contains(id) || (
        sel_match(last, revision, filter) && last.id == id)) by {
            if sel_match(last, revision, filter) && !prev.contains(last.id) {
                assert(dids == prev.push(last.id));
                if dids.contains(id) {
                    let i = choose|i: int| 0 <= i < dids.len() && dids[i] == id;
                    if i < prev.len() {
                        assert(prev[i] == id);
                    }
                }
                if prev.contains(id) {
                    let i = choose|i: int| 0 <= i < prev.len() && prev[i] == id;
                    assert(dids[i] == id);
                }
                if last.id == id {
                    assert(dids[prev.len() as int] == id);
                }
            }
        }
        assert forall|id: Seq<char>| #[trigger] id_present(s, revision, filter, id) <==> (
        id_present(s.drop_last(), revision, filter, id) || (sel_match(last, revision, filter)
            && last.id == id)) by {
            if id_present(s, revision, filter, id) {
                let r = choose|r: RecView|
                    s.contains(r) && #[trigger] sel_match(r, revision, filter) && r.id == id;
                lemma_contains_drop_last(s, r);
            }
            if id_present(s.drop_last(), revision, filter, id) {
                let r = choose|r: RecView|
                    s.drop_last().contains(r) && #[trigger] sel_match(r, revision, filter)
                        && r.id == id;
                lemma_contains_drop_last(s, r);
            }
        }
        if sel_match(last, revision, filter) && !prev.contains(last.id) {
            assert(dids == prev.push(last.id));
            assert forall|i: int, j: int| 0 <= i < j < dids.len() implies dids[i] != dids[j] by {
                if j < prev.len() {
                    assert(dids[i] == prev[i] && dids[j] == prev[j]);
                } else {
                    assert(dids[j] == last.id && dids[i] == prev[i]);
                    assert(prev[i] != last.id) by {
                        if prev[i] == last.id {
                            assert(prev.contains(last.id));
                        }
                    }
                }
            }
            assert(dids.no_duplicates());
        }
    }
}

/// Which records form one aggregation group at a given revision: those
/// with one exact raw identifier, or every record whose identifier
/// contains the filter text.
pub enum GroupKey {
    ById(String),
    ByFilter(String),
}

impl GroupKey {
    /// The grouping predicate the key stands for.
    pub open spec fn pred(self, revision: u32) -> spec_fn(RecView) -> bool {
        match self {
            GroupKey::ById(id) => by_id(revision, id@),
            GroupKey::ByFilter(f) => by_filter(revision, f@),
        }
    }
}

/// Whether one record belongs to the group.
fn rec_matches(r: &BenchmarkRecord, revision: u32, key: &GroupKey) -> (b: bool)
    ensures
        b == key.pred(revision)(r@),
{
    if r.revision != revision {
        return false;
    }
    match key {
        GroupKey::ById(id) => r.testcase_id == *id,
        GroupKey::ByFilter(f) => str_contains(r.testcase_id.as_str(), f.as_str()),
    }
}

/// Restricting a well-formed record sequence keeps it well formed.
proof fn lemma_wf_take(s: Seq<RecView>, n: nat, i: int)
    requires
        wf_recs(s, n),
        0 <= i <= s.len(),
    ensures
        wf_recs(s.take(i), n),
{
    assert forall|t: int| 0 <= t < s.take(i).len() implies (#[trigger] s.take(i)[t]).wf(n) by {
        assert(s.take(i)[t] == s[t]);
    }
}

/// Whether the identifier is already among the collected ones.
pub(crate) fn contains_id(ids: &Vec<String>, id: &String) -> (b: bool)
    ensures
        b == ids@.map_values(|s: String| s@).contains(id@),
{
    let ghost views = ids@.map_values(|s: String| s@);
    let mut k: usize = 0;
    while k < ids.len()
        invariant
            k <= ids@.len(),
            forall|t: int| 0 <= t < k ==> views[t] != id@,
        decreases ids@.len() - k,
    {
        if ids[k] == *id {
            proof {
                assert(views[k as int] == id@);
            }
            return true;
        }
        k = k + 1;
    }
    proof {
        assert(forall|t: int| 0 <= t < views.len() ==> views[t] != id@);
    }
    false
}

/// Collects the distinct raw identifiers of the selected records, in
/// order of first appearance.
pub fn collect_ids(records: &Vec<BenchmarkRecord>, revision: u32, name_filter: Option<&str>) -> (
    ids: Vec<String>)
    ensures
        ids@.map_values(|s: String| s@) == distinct_ids(
            recs(records@),
            revision,
            opt_str_view(name_filter),
        ),
{
    let ghost s = recs(records@);
    let ghost fv = opt_str_view(name_filter);
    let mut ids: Vec<String> = Vec::new();
    proof {
        assert(s.take(0) =~= Seq::<RecView>::empty());
        assert(ids@.map_values(|t: String| t@) =~= distinct_ids(s.take(0), revision, fv));
    }
    let mut i: usize = 0;
    while i < records.len()
        invariant
            i <= records@.len(),
            ids@.map_values(|t: String| t@) == distinct_ids(s.take(i as int), revision, fv),
        decreases records@.len() - i,
    {
        let r = &records[i];
        proof {
            assert(s[i as int] == records@[i as int]@);
            assert(s.take(i as int + 1).drop_last() =~= s.take(i as int));
            assert(s.take(i as int + 1).last() == s[i as int]);
        }
        let matched = r.revision == revision && (match name_filter {
            Option::None => true,
            Option::Some(f) => str_contains(r.testcase_id.as_str(), f),
        });
        if matched && !contains_id(&ids, &r.testcase_id) {
            ids.push(r.testcase_id.clone());
            proof {
                assert(ids@.map_values(|t: String| t@) =~= distinct_ids(
                    s.take(i as int + 1),
                    revision,
                    fv,
                ));
            }
        }
        i = i + 1;
    }
    proof {
        assert(s.take(records@.len() as int) =~= s);
    }
    ids
}

/// The aggregated statistics of one testcase at one revision: the mean
/// of each metric over the testcase's runs.
pub struct AggregatedStat {
    pub testcase_id: String,
    pub means: Vec<MetricValue>,
}

/// Aggregates the records of one revision: groups the selected records
/// by raw testcase identifier (in order of first appearance) and
/// computes every group's per-metric mean.  A testcase without matching
/// records yields no entry.
pub fn aggregate(
    records: &Vec<BenchmarkRecord>,
    revision: u32,
    n_metrics: usize,
    name_filter: Option<&str>,
) -> (out: Vec<AggregatedStat>)
    requires
        wf_recs(recs(records@), n_metrics as nat),
    ensures
        out@.map_values(|st: AggregatedStat| st.testcase_id@) == distinct_ids(
            recs(records@),
            revision,
            opt_str_view(name_filter),
        ),
        forall|k: int|
            0 <= k < out@.len() ==> (#[trigger] out@[k]).means@.len() == n_metrics,
        forall|k: int, j: int|
            0 <= k < out@.len() && 0 <= j < n_metrics ==> (#[trigger] out@[k].means@[j])
                == mean_where(recs(records@), by_id(revision, out@[k].testcase_id@), j)
                && out@[k].means@[j].wf(),
{
    let ghost s = recs(records@);
    let ghost fv = opt_str_view(name_filter);
    let ghost dids = distinct_ids(s, revision, fv);
    let ids = collect_ids(records, revision, name_filter);
    proof {
        lemma_distinct_ids_sound(s, revision, fv);
    }
    let mut out: Vec<AggregatedStat> = Vec::new();
    let mut k: usize = 0;
    while k < ids.len()
        invariant
            k <= ids@.len(),
            out@.len() == k,
            forall|t: int|
                0 <= t < k ==> (#[trigger] out@[t]).testcase_id@ == dids[t],
            forall|t: int|
                0 <= t < k ==> (#[trigger] out@[t]).means@.len() == n_metrics,
            forall|t: int, j: int|
                0 <= t < k && 0 <= j < n_metrics ==> (#[trigger] out@[t].means@[j]) == mean_where(
                    s,
                    by_id(revision, out@[t].testcase_id@),
                    j,
                ) && out@[t].means@[j].wf(),
        decreases ids@.len() - k,
    {
        let id = ids[k].clone();
        proof {
            assert(ids@.map_values(|t: String| t@)[k as int] == ids@[k as int]@);
            assert(dids[k as int] == id@);
            assert(dids.contains(dids[k as int]));
            let r = choose|r: RecView|
                s.contains(r) && #[trigger] sel_match(r, revision, fv) && r.id == dids[k as int];
            assert(by_id(revision, id@)(r));
            assert(present_where(s, by_id(revision, id@)));
        }
        let stat_id = ids[k].clone();
        let means = group_mean(records, revision, &GroupKey::ById(id), n_metrics);
        out.push(AggregatedStat { testcase_id: stat_id, means });
        k = k + 1;
    }
    proof {
        assert(out@.map_values(|st: AggregatedStat| st.testcase_id@) =~= dids);
    }
    out
}

/// The mean of every metric over one group of records.  The group must
/// be non-empty; `aggregate` and the series builders only ask for groups
/// they have seen a record of.
pub fn group_mean(
    records: &Vec<BenchmarkRecord>,
    revision: u32,
    key: &GroupKey,
    n_metrics: usize,
) -> (out: Vec<MetricValue>)
    requires
        wf_recs(recs(records@), n_metrics as nat),
        present_where(recs(records@), key.pred(revision)),
    ensures
        out@.len() == n_metrics,
        forall|j: int|
            0 <= j < n_metrics ==> (#[trigger] out@[j]) == mean_where(
                recs(records@),
                key.pred(revision),
                j,
            ) && out@[j].wf(),
{
    let ghost s = recs(records@);
    let ghost p = key.pred(revision);
    let ghost n = n_metrics as nat;
    let ghost m = MAX_ABS_VALUE as int;

    let mut sums: Vec<i128> = Vec::new();
    let mut nonfin: Vec<bool> = Vec::new();
    let mut j: usize = 0;
    while j < n_metrics
        invariant
            j <= n_metrics,
            sums@.len() == j,
            nonfin@.len() == j,
            forall|t: int| 0 <= t < j ==> (#[trigger] sums@[t]) == 0,
            forall|t: int| 0 <= t < j ==> (#[trigger] nonfin@[t]) == false,
        decreases n_metrics - j,
    {
        sums.push(0);
        nonfin.push(false);
        j = j + 1;
    }
    proof {
        assert(s.take(0) =~= Seq::<RecView>::empty());
    }

    let mut count: u64 = 0;
    let mut i: usize = 0;
    while i < records.len()
        invariant
            i <= records@.len(),
            s == recs(records@),
            p == key.pred(revision),
            wf_recs(s, n),
            n == n_metrics as nat,
            sums@.len() == n_metrics,
            nonfin@.len() == n_metrics,
            count == count_where(s.take(i as int), p),
            count <= i,
            forall|t: int|
                0 <= t < n_metrics ==> (#[trigger] sums@[t]) == sum_where(s.take(i as int), p, t),
            forall|t: int|
                0 <= t < n_metrics ==> (#[trigger] nonfin@[t]) == has_nonfinite_where(
                    s.take(i as int),
                    p,
                    t,
                ),
        decreases records@.len() - i,
    {
        let r = &records[i];
        let matched = rec_matches(r, revision, key);
        proof {
            assert(s[i as int] == records@[i as int]@);
            assert(s.take(i as int + 1).drop_last() =~= s.take(i as int));
            assert(s.take(i as int + 1).last() == s[i as int]);
            lemma_where_step(s.take(i as int + 1), p, 0);
            assert forall|t: int| 0 <= t < n_metrics implies sum_where(s.take(i as int + 1), p, t)
                == sum_where(s.take(i as int), p, t) + (if p(s[i as int]) && s[i as int].vals[t]
                is Finite {
                s[i as int].vals[t].milli()
            } else {
                0 as int
            }) && has_nonfinite_where(s.take(i as int + 1), p, t) == (has_nonfinite_where(
                s.take(i as int),
                p,
                t,
            ) || (p(s[i as int]) && !(s[i as int].vals[t] is Finite))) by {
                lemma_where_step(s.take(i as int + 1), p, t);
            }
        }
        if matched {
            count = count + 1;
            let mut j: usize = 0;
            while j < n_metrics
                invariant
                    j <= n_metrics,
                    sums@.len() == n_metrics,
                    nonfin@.len() == n_metrics,
                    forall|t: int|
                        0 <= t < j ==> (#[trigger] sums@[t]) == sum_where(
                            s.take(i as int + 1),
                            p,
                            t,
                        ),
                    forall|t: int|
                        j <= t < n_metrics ==> (#[trigger] sums@[t]) == sum_where(
                            s.take(i as int),
                            p,
                            t,
                        ),
                    forall|t: int|
                        0 <= t < j ==> (#[trigger] nonfin@[t]) == has_nonfinite_where(
                            s.take(i as int + 1),
                            p,
                            t,
                        ),
                    forall|t: int|
                        j <= t < n_metrics ==> (#[trigger] nonfin@[t]) == has_nonfinite_where(
                            s.take(i as int),
                            p,
                            t,
                        ),
                decreases n_metrics - j,
            {
                proof {
                    assert(s[i as int].wf(n));
                    lemma_wf_take(s, n, i as int);
                    lemma_sum_where_bound(s.take(i as int), p, j as int, n);
                    lemma_count_where_bounds(s.take(i as int), p);
                    lemma_mul_inequality(count_where(s.take(i as int), p), i as int, m);
                    lemma_mul_inequality(i as int, u64::MAX as int, m);
                    lemma_mul_inequality(-(i as int), count_where(s.take(i as int), p), m);
                }
                let v = r.values[j];
                match v {
                    MetricValue::Finite(x) => {
                        sums[j] = sums[j] + (x as i128);
                    },
                    MetricValue::NonFinite => {
                        nonfin[j] = true;
                    },
                }
                j = j + 1;
            }
        }
        i = i + 1;
    }
    proof {
        assert(s.take(records@.len() as int) =~= s);
        lemma_count_where_bounds(s, p);
    }

    let mut out: Vec<MetricValue> = Vec::new();
    let mut j: usize = 0;
    while j < n_metrics
        invariant
            j <= n_metrics,
            s == recs(records@),
            p == key.pred(revision),
            wf_recs(s, n),
            n == n_metrics as nat,
            sums@.len() == n_metrics,
            nonfin@.len() == n_metrics,
            count == count_where(s, p),
            count > 0,
            forall|t: int| 0 <= t < n_metrics ==> (#[trigger] sums@[t]) == sum_where(s, p, t),
            forall|t: int|
                0 <= t < n_metrics ==> (#[trigger] nonfin@[t]) == has_nonfinite_where(s, p, t),
            out@.len() == j,
            forall|t: int|
                0 <= t < j ==> (#[trigger] out@[t]) == mean_where(s, p, t) && out@[t].wf(),
        decreases n_metrics - j,
    {
        if nonfin[j] {
            out.push(MetricValue::NonFinite);
        } else {
            proof {
                lemma_sum_where_bound(s, p, j as int, n);
                lemma_count_where_bounds(s, p);
                lemma_mul_inequality(count_where(s, p), u64::MAX as int, m);
                lemma_mul_inequality(-(u64::MAX as int), -count_where(s, p), m);
                lemma_mul_inequality(-count_where(s, p), count_where(s, p), m);
            }
            let q = div_round_i128(sums[j], count as i128);
            proof {
                lemma_div_round_nearest_bound(sum_where(s, p, j as int), count as int, m);
            }
            out.push(MetricValue::Finite(q as i64));
        }
        j = j + 1;
    }
    out
}

} // verus!
