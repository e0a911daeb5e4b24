//! Fixed-point metric values and the rounding arithmetic shared by the
//! change calculator, the aggregator and the normalizers.

use vstd::prelude::*;

verus! {

/// Fixed-point resolution: a finite metric value is an integer count of
/// thousandths of the metric's natural unit (seconds, megabytes).
pub const VALUE_SCALE: i64 = 1000;

/// Largest magnitude, in thousandths, of a finite metric value the
/// library accepts.  The bound keeps every intermediate sum and product
/// of the engine inside `i128`/`u128` range.
pub const MAX_ABS_VALUE: i64 = 1_000_000_000_000_000;

/// One measured value of one metric.  Durations and memory sizes are
/// finite in practice, but the measurement store may hand back NaN or an
/// infinity; all such inputs collapse to `NonFinite`, since every rule of
/// the engine treats them alike: a non-finite value poisons the mean of
/// its group and downgrades any change or normalization computed from it
/// to an undefined result.
#[derive(Clone, Copy, Debug, PartialEq, Eq, Structural)]
pub enum MetricValue {
    /// A finite value, in thousandths of the metric's unit.
    Finite(i64),
    /// A degenerate value (NaN or an infinity in the raw data).
    NonFinite,
}

impl MetricValue {
    /// Well-formed values keep their magnitude within the fixed-point
    /// domain.
    pub open spec fn wf(self) -> bool {
        match self {
            MetricValue::Finite(v) => -MAX_ABS_VALUE <= v && v <= MAX_ABS_VALUE,
            MetricValue::NonFinite => true,
        }
    }

    /// Builds a value from a thousandths count, mapping anything outside
    /// the fixed-point domain to `NonFinite`.
    pub fn from_milli(v: i64) -> (r: MetricValue)
        ensures
            r.wf(),
            -MAX_ABS_VALUE <= v && v <= MAX_ABS_VALUE ==> r == MetricValue::Finite(v),
            !(-MAX_ABS_VALUE <= v && v <= MAX_ABS_VALUE) ==> r == MetricValue::NonFinite,
    {
        if -MAX_ABS_VALUE <= v && v <= MAX_ABS_VALUE {
            MetricValue::Finite(v)
        } else {
            MetricValue::NonFinite
        }
    }
}

/// Division of `a` by a positive `b`, rounded to the nearest integer with
/// halves rounded away from zero.  This is the one rounding rule of the
/// library; reported percentages, means and normalized chart values all
/// use it.
pub open spec fn div_round_nearest(a: int, b: int) -> int
    recommends
        b > 0,
{
    if a >= 0 {
        (2 * a + b) / (2 * b)
    } else {
        -((2 * -a + b) / (2 * b))
    }
}

/// If `|a| <= m * b`, the rounded quotient stays within `[-m, m]`; in
/// particular a mean rounded this way stays within the bound of the
/// values averaged.
pub proof fn lemma_div_round_nearest_bound(a: int, b: int, m: int)
    requires
        b > 0,
        m >= 0,
        -m * b <= a && a <= m * b,
    ensures
        -m <= div_round_nearest(a, b) && div_round_nearest(a, b) <= m,
{
    vstd::arithmetic::div_mod::lemma_div_multiples_vanish_fancy(m, b, 2 * b);
    if a >= 0 {
        assert(2 * a + b <= 2 * b * m + b) by (nonlinear_arith)
            requires
                a <= m * b,
        ;
        vstd::arithmetic::div_mod::lemma_div_is_ordered(2 * a + b, 2 * b * m + b, 2 * b);
        vstd::arithmetic::div_mod::lemma_div_pos_is_pos(2 * a + b, 2 * b);
    } else {
        assert(2 * -a + b <= 2 * b * m + b) by (nonlinear_arith)
            requires
                -m * b <= a,
        ;
        vstd::arithmetic::div_mod::lemma_div_is_ordered(2 * -a + b, 2 * b * m + b, 2 * b);
        vstd::arithmetic::div_mod::lemma_div_pos_is_pos(2 * -a + b, 2 * b);
    }
}

/// Executable form of `div_round_nearest` on magnitudes.
fn div_round_u128(a: u128, b: u128) -> (q: u128)
    requires
        b > 0,
        a <= u128::MAX / 4,
        b <= u128::MAX / 4,
    ensures
        q == div_round_nearest(a as int, b as int),
{
    (2 * a + b) / (2 * b)
}

/// Executable form of `div_round_nearest` on signed operands.
pub fn div_round_i128(a: i128, b: i128) -> (q: i128)
    requires
        b > 0,
        -(i128::MAX / 4) <= a && a <= i128::MAX / 4,
        b <= i128::MAX / 4,
    ensures
        q == div_round_nearest(a as int, b as int),
{
    if a >= 0 {
        let qm = div_round_u128(a as u128, b as u128);
        proof {
            assert(-(a as int) * b <= a && a <= a * b) by (nonlinear_arith)
                requires
                    a >= 0,
                    b >= 1,
            ;
            lemma_div_round_nearest_bound(a as int, b as int, a as int);
        }
        qm as i128
    } else {
        let qm = div_round_u128((-a) as u128, b as u128);
        proof {
            assert(-(-(a as int)) * b <= -(a as int) && -(a as int) <= -(a as int) * b)
                by (nonlinear_arith)
                requires
                    a < 0,
                    b >= 1,
            ;
            lemma_div_round_nearest_bound(-(a as int), b as int, -(a as int));
        }
        -(qm as i128)
    }
}

} // verus!
