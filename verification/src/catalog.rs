//! The revision catalog: which revisions have data at or above the
//! configured floor, and the default comparison window drawn from them.

use vstd::prelude::*;
use crate::records::{recs, BenchmarkRecord, RecView};
use crate::RECENCY_WINDOW;

verus! {

/// A strictly ascending sequence of numbers.
pub open spec fn strictly_ascending(s: Seq<u32>) -> bool {
    forall|a: int, b: int| 0 <= a < b < s.len() ==> s[a] < s[b]
}

/// Revision `r` is known: some record measured it, and it is not below
/// the floor.
pub open spec fn rev_known(s: Seq<RecView>, floor: u32, r: u32) -> bool {
    r >= floor && exists|i: int| 0 <= i < s.len() && (#[trigger] s[i]).revision == r
}

/// Inserts a value into a strictly ascending vector, keeping it strictly
/// ascending; a value already present is left alone.
pub(crate) fn insert_sorted_unique(v: &mut Vec<u32>, x: u32)
    requires
        strictly_ascending(old(v)@),
    ensures
        strictly_ascending(final(v)@),
        forall|r: u32| final(v)@.contains(r) <==> (old(v)@.contains(r) || r == x),
{
    let mut k: usize = 0;
    while k < v.len() && v[k] < x
        invariant
            k <= v@.len(),
            forall|t: int| 0 <= t < k ==> v@[t] < x,
        decreases v@.len() - k,
    {
        k = k + 1;
    }
    if k < v.len() && v[k] == x {
        proof {
            assert(v@.contains(x)) by {
                assert(v@[k as int] == x);
            }
        }
        return ;
    }
    proof {
        v@.insert_ensures(k as int, x);
    }
    v.insert(k, x);
    proof {
        assert forall|r: u32| final(v)@.contains(r) <==> (old(v)@.contains(r) || r == x) by {
            if final(v)@.contains(r) {
                let t = choose|t: int| 0 <= t < final(v)@.len() && final(v)@[t] == r;
                if t < k {
                    assert(old(v)@[t] == r);
                } else if t > k {
                    assert(old(v)@[t - 1] == r);
                }
            }
            if old(v)@.contains(r) {
                let t = choose|t: int| 0 <= t < old(v)@.len() && old(v)@[t] == r;
                if t < k {
                    assert(final(v)@[t] == r);
                } else {
                    assert(final(v)@[t + 1] == r);
                }
            }
            if r == x {
                assert(final(v)@[k as int] == r);
            }
        }
        assert forall|a: int, b: int|
            0 <= a < b < final(v)@.len() implies final(v)@[a] < final(v)@[b] by {
            if b < k {
            } else if a > k {
                assert(old(v)@[a - 1] < old(v)@[b - 1]);
            } else if a == k && b > k {
                assert(final(v)@[b] == old(v)@[b - 1]);
                assert(old(v)@[b - 1] >= old(v)@[k as int]);
                assert(old(v)@[k as int] != x);
            } else if b == k {
                assert(final(v)@[a] == old(v)@[a] && old(v)@[a] < x);
            } else {
                assert(final(v)@[a] == old(v)@[a] && old(v)@[a] < x);
                assert(final(v)@[b] == old(v)@[b - 1]);
                assert(old(v)@[b - 1] >= old(v)@[k as int]);
                assert(old(v)@[k as int] != x);
            }
        }
    }
}

/// Lists the distinct known revisions at or above `floor`, ascending.
pub fn list_revisions(records: &Vec<BenchmarkRecord>, floor: u32) -> (revs: Vec<u32>)
    ensures
        strictly_ascending(revs@),
        forall|r: u32| revs@.contains(r) <==> rev_known(recs(records@), floor, r),
{
    let ghost s = recs(records@);
    let mut revs: Vec<u32> = Vec::new();
    let mut i: usize = 0;
    while i < records.len()
        invariant
            i <= records@.len(),
            strictly_ascending(revs@),
            forall|r: u32| revs@.contains(r) <==> rev_known(s.take(i as int), floor, r),
        decreases records@.len() - i,
    {
        let rv = records[i].revision;
        proof {
            assert(s[i as int] == records@[i as int]@);
            assert forall|r: u32|
                rev_known(s.take(i as int + 1), floor, r) <==> (rev_known(s.take(i as int), floor, r)
                    || (rv >= floor && r == rv)) by {
                if rev_known(s.take(i as int + 1), floor, r) {
                    let t = choose|t: int|
                        0 <= t < s.take(i as int + 1).len() && (#[trigger] s.take(
                            i as int + 1,
                        )[t]).revision == r;
                    if t < i {
                        assert(s.take(i as int)[t].revision == r);
                    }
                }
                if rev_known(s.take(i as int), floor, r) {
                    let t = choose|t: int|
                        0 <= t < s.take(i as int).len() && (#[trigger] s.take(i as int)[t]).revision
                            == r;
                    assert(s.take(i as int + 1)[t].revision == r);
                }
                if rv >= floor && r == rv {
                    assert(s.take(i as int + 1)[i as int].revision == r);
                }
            }
        }
        if rv >= floor {
            insert_sorted_unique(&mut revs, rv);
        }
        proof {
            assert forall|r: u32|
                revs@.contains(r) <==> rev_known(s.take(i as int + 1), floor, r) by {
                assert(rev_known(s.take(i as int + 1), floor, r) <==> (rev_known(
                    s.take(i as int),
                    floor,
                    r,
                ) || (rv >= floor && r == rv)));
            }
        }
        i = i + 1;
    }
    proof {
        assert(s.take(records@.len() as int) =~= s);
    }
    revs
}

/// The default low revision: the `RECENCY_WINDOW`-th most recent known
/// revision, or the earliest when fewer are known.  Meaningful only for
/// a non-empty catalog.
pub open spec fn default_low(revs: Seq<u32>) -> u32
    recommends
        revs.len() > 0,
{
    if revs.len() >= RECENCY_WINDOW {
        revs[revs.len() - RECENCY_WINDOW]
    } else {
        revs[0]
    }
}

/// The default high revision: the latest known one.
pub open spec fn default_high(revs: Seq<u32>) -> u32
    recommends
        revs.len() > 0,
{
    revs[revs.len() - 1]
}

/// Resolves the requested revision window against the catalog: an
/// explicit bound is taken as given, a missing one falls back to the
/// default window.  `None` exactly when a default is needed and the
/// catalog is empty.
pub fn resolve_window(revisions: &Vec<u32>, low: Option<u32>, high: Option<u32>) -> (r: Option<
    (u32, u32),
>)
    ensures
        match r {
            Option::Some(w) => {
                &&& w.0 == (match low {
                    Option::Some(l) => l,
                    Option::None => default_low(revisions@),
                })
                &&& w.1 == (match high {
                    Option::Some(h) => h,
                    Option::None => default_high(revisions@),
                })
            },
            Option::None => revisions@.len() == 0 && (low is None || high is None),
        },
{
    let lo = match low {
        Option::Some(l) => l,
        Option::None => {
            if revisions.len() == 0 {
                return Option::None;
            }
            if revisions.len() >= RECENCY_WINDOW {
                revisions[revisions.len() - RECENCY_WINDOW]
            } else {
                revisions[0]
            }
        },
    };
    let hi = match high {
        Option::Some(h) => h,
        Option::None => {
            if revisions.len() == 0 {
                return Option::None;
            }
            revisions[revisions.len() - 1]
        },
    };
    Option::Some((lo, hi))
}

} // verus!
