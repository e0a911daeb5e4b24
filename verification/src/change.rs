//! The relative change calculator: turns a reference value and a
//! candidate value of the same metric into a signed percentage and a
//! three-way classification.

use vstd::prelude::*;
use crate::fmt::{dec_str, u64_to_string};
use crate::value::{div_round_nearest, div_round_i128, MetricValue, MAX_ABS_VALUE};

verus! {

/// The neutral band, in tenths of a percent: a change of at most this
/// magnitude (inclusive) is not significant.  The band is compared on
/// the exact ratio, not on the rounded percentage.
pub const NEUTRAL_BAND_TENTHS: i64 = 50;

/// The classified relative change between a reference value and a
/// candidate value.  The payload is the percentage change in tenths of a
/// percent, rounded to the nearest tenth (halves away from zero).
///
/// The metrics of this domain (run time, memory) are lower-is-better, so
/// a positive change beyond the neutral band is a regression and a
/// negative one an improvement.
#[derive(Clone, Copy, Debug, PartialEq, Eq, Structural)]
pub enum ChangeResult {
    /// The change is reference-dependent or degenerate: the reference is
    /// zero, the candidate is zero (a complete drop to zero reads as
    /// -100% only because of the reference), or either value is
    /// non-finite.
    Undefined,
    /// The value moved in the better direction, beyond the neutral band.
    Improved(i64),
    /// The value moved in the worse direction, beyond the neutral band.
    Regressed(i64),
    /// The change lies within the neutral band.
    Neutral(i64),
}

/// Numerator of the exact change ratio `1000 * (candidate/reference - 1)`
/// in tenths of a percent, sign-normalized so that `change_den` is
/// positive.
pub open spec fn change_num(reference: int, candidate: int) -> int {
    if reference > 0 {
        1000 * (candidate - reference)
    } else {
        -1000 * (candidate - reference)
    }
}

/// Positive denominator of the exact change ratio.
pub open spec fn change_den(reference: int) -> int {
    if reference > 0 {
        reference
    } else {
        -reference
    }
}

/// The change between two finite non-zero values, as tenths of a percent
/// rounded to the nearest tenth.
pub open spec fn change_tenths(reference: int, candidate: int) -> int {
    div_round_nearest(change_num(reference, candidate), change_den(reference))
}

/// What `relative_change` returns: `Undefined` for any degenerate pair,
/// otherwise the rounded percentage classified against the exact ±5%
/// band.
pub open spec fn change_spec(reference: MetricValue, candidate: MetricValue) -> ChangeResult {
    match (reference, candidate) {
        (MetricValue::Finite(a), MetricValue::Finite(b)) => {
            if a == 0 || b == 0 {
                ChangeResult::Undefined
            } else {
                let n = change_num(a as int, b as int);
                let d = change_den(a as int);
                let t = change_tenths(a as int, b as int);
                if n > NEUTRAL_BAND_TENTHS * d {
                    ChangeResult::Regressed(t as i64)
                } else if n < -NEUTRAL_BAND_TENTHS * d {
                    ChangeResult::Improved(t as i64)
                } else {
                    ChangeResult::Neutral(t as i64)
                }
            }
        },
        _ => ChangeResult::Undefined,
    }
}

/// The rounded percentage is bounded by the worst case of one
/// thousandth-resolution value against another, so it fits an `i64`.
proof fn lemma_change_tenths_bound(a: int, b: int)
    requires
        a != 0,
        -MAX_ABS_VALUE <= a && a <= MAX_ABS_VALUE,
        -MAX_ABS_VALUE <= b && b <= MAX_ABS_VALUE,
    ensures
        -2_000_000_000_000_000_000 <= change_tenths(a, b) && change_tenths(a, b)
            <= 2_000_000_000_000_000_000,
{
    let n = change_num(a, b);
    let d = change_den(a);
    let m: int = 2_000_000_000_000_000_000;
    assert(-m * d <= n && n <= m * d) by (nonlinear_arith)
        requires
            d >= 1,
            -m <= n && n <= m,
            m > 0,
    ;
    crate::value::lemma_div_round_nearest_bound(n, d, m);
}

/// Computes the relative change from `reference` to `candidate`:
/// `Undefined` exactly when the reference is zero, the candidate is
/// zero, or either value is non-finite; otherwise the percentage
/// `100 * (candidate/reference - 1)` rounded to a tenth of a percent and
/// classified against the exact ±5% neutral band (5.0% exactly is still
/// neutral).
pub fn relative_change(reference: MetricValue, candidate: MetricValue) -> (r: ChangeResult)
    requires
        reference.wf(),
        candidate.wf(),
    ensures
        r == change_spec(reference, candidate),
{
    match (reference, candidate) {
        (MetricValue::Finite(a), MetricValue::Finite(b)) => {
            if a == 0 || b == 0 {
                ChangeResult::Undefined
            } else {
                let diff = 1000 * (b as i128 - a as i128);
                let (n, d) = if a > 0 {
                    (diff, a as i128)
                } else {
                    (-diff, -(a as i128))
                };
                proof {
                    lemma_change_tenths_bound(a as int, b as int);
                    assert(1 <= d <= MAX_ABS_VALUE as i128);
                }
                let t = div_round_i128(n, d) as i64;
                let band = NEUTRAL_BAND_TENTHS as i128 * d;
                if n > band {
                    ChangeResult::Regressed(t)
                } else if n < -band {
                    ChangeResult::Improved(t)
                } else {
                    ChangeResult::Neutral(t)
                }
            }
        },
        _ => ChangeResult::Undefined,
    }
}

/// A zero reference never yields a percentage, whatever the candidate:
/// the change is reference-dependent, so it is reported as undefined
/// rather than as a misleading figure.
pub proof fn lemma_zero_reference_undefined(candidate: MetricValue)
    ensures
        change_spec(MetricValue::Finite(0), candidate) == ChangeResult::Undefined,
{
}

/// The percentage text for a change: `?` when undefined, otherwise the
/// tenths-of-a-percent figure with one decimal and an explicit sign for
/// positive changes, e.g. `+10.0%`, `-3.4%`, `0.0%`.
pub open spec fn change_label_spec(c: ChangeResult) -> Seq<char> {
    match c {
        ChangeResult::Undefined => "?"@,
        ChangeResult::Improved(t) => pct_label(t as int),
        ChangeResult::Regressed(t) => pct_label(t as int),
        ChangeResult::Neutral(t) => pct_label(t as int),
    }
}

/// The rendering of a tenths-of-a-percent figure.
pub open spec fn pct_label(t: int) -> Seq<char> {
    let sign = if t > 0 {
        "+"@
    } else if t < 0 {
        "-"@
    } else {
        Seq::<char>::empty()
    };
    let a = if t < 0 {
        -t
    } else {
        t
    };
    sign + dec_str((a / 10) as nat) + "."@ + dec_str((a % 10) as nat) + "%"@
}

/// Renders a change as percentage text.
pub fn change_label(c: &ChangeResult) -> (r: String)
    ensures
        r@ == change_label_spec(*c),
{
    match c {
        ChangeResult::Undefined => "?".to_owned(),
        ChangeResult::Improved(t) => pct_string(*t),
        ChangeResult::Regressed(t) => pct_string(*t),
        ChangeResult::Neutral(t) => pct_string(*t),
    }
}

fn pct_string(t: i64) -> (r: String)
    ensures
        r@ == pct_label(t as int),
{
    let mut s = if t > 0 {
        "+".to_owned()
    } else if t < 0 {
        "-".to_owned()
    } else {
        String::new()
    };
    let a: u64 = if t < 0 {
        (-(t as i128)) as u64
    } else {
        t as u64
    };
    s.append(u64_to_string(a / 10).as_str());
    s.append(".");
    s.append(u64_to_string(a % 10).as_str());
    s.append("%");
    proof {
        assert(s@ =~= pct_label(t as int));
    }
    s
}

/// The emphasis style of a comparison cell: red for a regression or an
/// undefined change, green for an improvement, grey for a neutral
/// change.
pub open spec fn style_spec(reference: MetricValue, candidate: MetricValue) -> Seq<char> {
    match change_spec(reference, candidate) {
        ChangeResult::Improved(_) => "color:#0a0;font-weight:bold"@,
        ChangeResult::Neutral(_) => "color:#aaa"@,
        _ => "color:#e00;font-weight:bold"@,
    }
}

/// Picks the display style for the change between two values.
pub fn to_style(reference: MetricValue, candidate: MetricValue) -> (r: &'static str)
    requires
        reference.wf(),
        candidate.wf(),
    ensures
        r@ == style_spec(reference, candidate),
{
    match relative_change(reference, candidate) {
        ChangeResult::Improved(_) => "color:#0a0;font-weight:bold",
        ChangeResult::Neutral(_) => "color:#aaa",
        _ => "color:#e00;font-weight:bold",
    }
}

} // verus!
