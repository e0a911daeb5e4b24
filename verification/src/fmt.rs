//! Decimal rendering of fixed-point values: plain integers, seconds with
//! two decimals, whole megabytes.

use vstd::prelude::*;
use crate::value::{div_round_nearest, div_round_i128, MetricValue, MAX_ABS_VALUE};

verus! {

/// The decimal digit character for `d` (meaningful for `0 <= d <= 9`).
pub open spec fn dec_digit(d: int) -> char {
    if d == 0 {
        '0'
    } else if d == 1 {
        '1'
    } else if d == 2 {
        '2'
    } else if d == 3 {
        '3'
    } else if d == 4 {
        '4'
    } else if d == 5 {
        '5'
    } else if d == 6 {
        '6'
    } else if d == 7 {
        '7'
    } else if d == 8 {
        '8'
    } else {
        '9'
    }
}

/// The usual base-ten rendering of a non-negative integer, without
/// leading zeroes (a single zero for 0).
pub open spec fn dec_str(n: nat) -> Seq<char>
    decreases n,
{
    if n < 10 {
        seq![dec_digit(n as int)]
    } else {
        dec_str(n / 10) + seq![dec_digit((n % 10) as int)]
    }
}

/// Two-digit rendering with a leading zero (meaningful for `f < 100`).
pub open spec fn dec_str2(f: int) -> Seq<char> {
    seq![dec_digit(f / 10), dec_digit(f % 10)]
}

fn digit_str(d: u64) -> (r: &'static str)
    requires
        d < 10,
    ensures
        r@ == seq![dec_digit(d as int)],
{
    if d == 0 {
        proof {
            reveal_strlit("0");
            assert("0"@ =~= seq![dec_digit(0)]);
        }
        "0"
    } else if d == 1 {
        proof {
            reveal_strlit("1");
            assert("1"@ =~= seq![dec_digit(1)]);
        }
        "1"
    } else if d == 2 {
        proof {
            reveal_strlit("2");
            assert("2"@ =~= seq![dec_digit(2)]);
        }
        "2"
    } else if d == 3 {
        proof {
            reveal_strlit("3");
            assert("3"@ =~= seq![dec_digit(3)]);
        }
        "3"
    } else if d == 4 {
        proof {
            reveal_strlit("4");
            assert("4"@ =~= seq![dec_digit(4)]);
        }
        "4"
    } else if d == 5 {
        proof {
            reveal_strlit("5");
            assert("5"@ =~= seq![dec_digit(5)]);
        }
        "5"
    } else if d == 6 {
        proof {
            reveal_strlit("6");
            assert("6"@ =~= seq![dec_digit(6)]);
        }
        "6"
    } else if d == 7 {
        proof {
            reveal_strlit("7");
            assert("7"@ =~= seq![dec_digit(7)]);
        }
        "7"
    } else if d == 8 {
        proof {
            reveal_strlit("8");
            assert("8"@ =~= seq![dec_digit(8)]);
        }
        "8"
    } else {
        proof {
            reveal_strlit("9");
            assert("9"@ =~= seq![dec_digit(9)]);
        }
        "9"
    }
}

/// Renders a non-negative integer in base ten.
pub fn u64_to_string(n: u64) -> (r: String)
    ensures
        r@ == dec_str(n as nat),
    decreases n,
{
    if n < 10 {
        digit_str(n).to_owned()
    } else {
        let mut s = u64_to_string(n / 10);
        s.append(digit_str(n % 10));
        s
    }
}

/// The rendering of a time value (thousandths of a second) as seconds
/// with two decimals, e.g. `12.35s`; `?` for a non-finite value.
pub open spec fn time_label(v: MetricValue) -> Seq<char> {
    match v {
        MetricValue::NonFinite => "?"@,
        MetricValue::Finite(m) => {
            let c = div_round_nearest(m as int, 10);
            let a = if c < 0 {
                -c
            } else {
                c
            };
            let sign = if c < 0 {
                "-"@
            } else {
                Seq::<char>::empty()
            };
            sign + dec_str((a / 100) as nat) + "."@ + dec_str2(a % 100) + "s"@
        },
    }
}

/// The rendering of a memory value (thousandths of a megabyte) as whole
/// megabytes, e.g. `1536 MB`; `?` for a non-finite value.
pub open spec fn mem_label(v: MetricValue) -> Seq<char> {
    match v {
        MetricValue::NonFinite => "?"@,
        MetricValue::Finite(m) => {
            let w = div_round_nearest(m as int, 1000);
            let a = if w < 0 {
                -w
            } else {
                w
            };
            let sign = if w < 0 {
                "-"@
            } else {
                Seq::<char>::empty()
            };
            sign + dec_str(a as nat) + " MB"@
        },
    }
}

/// Renders a time value as seconds with two decimals.
pub fn format_time(v: MetricValue) -> (r: String)
    requires
        v.wf(),
    ensures
        r@ == time_label(v),
{
    match v {
        MetricValue::NonFinite => {
            let s = "?";
            s.to_owned()
        },
        MetricValue::Finite(m) => {
            let c = div_round_i128(m as i128, 10);
            proof {
                crate::value::lemma_div_round_nearest_bound(m as int, 10, MAX_ABS_VALUE as int);
            }
            let neg = c < 0;
            let a = if neg {
                (-c) as u64
            } else {
                c as u64
            };
            let mut s = if neg {
                "-".to_owned()
            } else {
                String::new()
            };
            s.append(u64_to_string(a / 100).as_str());
            s.append(".");
            let f = a % 100;
            s.append(digit_str(f / 10));
            s.append(digit_str(f % 10));
            s.append("s");
            proof {
                assert(s@ =~= time_label(v));
            }
            s
        },
    }
}

/// Renders a memory value as whole megabytes.
pub fn format_mem(v: MetricValue) -> (r: String)
    requires
        v.wf(),
    ensures
        r@ == mem_label(v),
{
    match v {
        MetricValue::NonFinite => {
            let s = "?";
            s.to_owned()
        },
        MetricValue::Finite(m) => {
            let w = div_round_i128(m as i128, 1000);
            proof {
                crate::value::lemma_div_round_nearest_bound(m as int, 1000, MAX_ABS_VALUE as int);
            }
            let neg = w < 0;
            let a = if neg {
                (-w) as u64
            } else {
                w as u64
            };
            let mut s = if neg {
                "-".to_owned()
            } else {
                String::new()
            };
            s.append(u64_to_string(a).as_str());
            s.append(" MB");
            proof {
                assert(s@ =~= mem_label(v));
            }
            s
        },
    }
}

} // verus!
