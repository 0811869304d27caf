//! Boot/uptime family: parses a two-line `date +%s && cat /proc/uptime`
//! output and projects the current time and the boot time.

use vstd::prelude::*;

use crate::error::ParseError;
use crate::prometheus::{gauge, gauge_model, metrics_model, PromMetric};
use crate::text::{chars_of, digit_run_end, digit_run_end_at, digits_val, parse_u64_digits, trim,
    trim_chars};
use crate::transport::TomatoClientInternal;
use crate::value::MetricValue;

verus! {

#[derive(Debug, Clone, PartialEq, Eq)]
pub struct TimeClient {
    pub client: TomatoClientInternal,
}

#[derive(Debug, Clone, Copy, PartialEq, Eq, Structural)]
pub struct Times {
    /// Unix time at the moment of the scrape.
    pub curr_timestamp: u64,
    /// Unix time of the last boot: current time minus whole uptime seconds.
    pub up_timestamp: u64,
}

/// The end of a `<digits>.<digits>` shape starting at `i`, if it has one.
pub open spec fn decimal_shape_end(s: Seq<char>, i: nat) -> Option<nat> {
    let j = digit_run_end(s, i);
    if j == i || j >= s.len() || s[j as int] != '.' {
        Option::None
    } else {
        let k = digit_run_end(s, j + 1);
        if k == j + 1 {
            Option::None
        } else {
            Option::Some(k)
        }
    }
}

/// The trimmed body: a Unix timestamp line, then an uptime line
/// `<up>.<frac> <idle>.<frac>`.  The fractional seconds are discarded; boot
/// time is the timestamp minus the whole uptime seconds, and an uptime
/// larger than the timestamp is rejected.
pub open spec fn time_spec(s: Seq<char>) -> Option<Times> {
    let t_end = digit_run_end(s, 0);
    let ts = digits_val(s.subrange(0, t_end as int));
    if t_end == 0 || ts > u64::MAX {
        Option::None
    } else if t_end >= s.len() || s[t_end as int] != '\n' {
        Option::None
    } else {
        let j = digit_run_end(s, t_end + 1);
        let up = digits_val(s.subrange(t_end as int + 1, j as int));
        if j == t_end + 1 || up > u64::MAX {
            Option::None
        } else if j >= s.len() || s[j as int] != '.' {
            Option::None
        } else {
            let k = digit_run_end(s, j + 1);
            if k == j + 1 || k >= s.len() || s[k as int] != ' ' {
                Option::None
            } else {
                match decimal_shape_end(s, k + 1) {
                    Option::None => Option::None,
                    Option::Some(e) => if e != s.len() || up > ts {
                        Option::None
                    } else {
                        Option::Some(
                            Times {
                                curr_timestamp: ts as u64,
                                up_timestamp: (ts - up) as u64,
                            },
                        )
                    },
                }
            }
        }
    }
}

impl TimeClient {
    pub fn new(client: TomatoClientInternal) -> (r: TimeClient)
        ensures
            r.client == client,
    {
        TimeClient { client }
    }

    /// Parses the timestamp and uptime lines; fails exactly when the
    /// trimmed body does not match the pattern.
    pub fn parse_body(body: String) -> (r: Result<Times, ParseError>)
        ensures
            match r {
                Result::Ok(t) => time_spec(trim(body@)) == Option::Some(t),
                Result::Err(_) => time_spec(trim(body@)) is None,
            },
    {
        let chars = chars_of(body.as_str());
        let v = trim_chars(&chars);
        let t_end = digit_run_end_at(&v, 0);
        if t_end == 0 {
            return Result::Err(ParseError);
        }
        let ts = match parse_u64_digits(&v, 0, t_end) {
            Option::Some(n) => n,
            Option::None => {
                return Result::Err(ParseError);
            },
        };
        if t_end >= v.len() || v[t_end] != '\n' {
            return Result::Err(ParseError);
        }
        let j = digit_run_end_at(&v, t_end + 1);
        if j == t_end + 1 {
            return Result::Err(ParseError);
        }
        let up = match parse_u64_digits(&v, t_end + 1, j) {
            Option::Some(n) => n,
            Option::None => {
                return Result::Err(ParseError);
            },
        };
        if j >= v.len() || v[j] != '.' {
            return Result::Err(ParseError);
        }
        let k = digit_run_end_at(&v, j + 1);
        if k == j + 1 || k >= v.len() || v[k] != ' ' {
            return Result::Err(ParseError);
        }
        let e1 = digit_run_end_at(&v, k + 1);
        if e1 == k + 1 || e1 >= v.len() || v[e1] != '.' {
            return Result::Err(ParseError);
        }
        let e2 = digit_run_end_at(&v, e1 + 1);
        if e2 == e1 + 1 {
            return Result::Err(ParseError);
        }
        if e2 != v.len() || up > ts {
            return Result::Err(ParseError);
        }
        Result::Ok(Times { curr_timestamp: ts, up_timestamp: ts - up })
    }

    /// Projects the measurement to its two gauge series.
    pub fn raw_to_prom(raw_metrics: Times) -> (r: Vec<PromMetric>)
        ensures
            metrics_model(r@) == seq![
                gauge_model(
                    "node_time_seconds"@,
                    "System time in seconds since epoch (1970)"@,
                    MetricValue { units: raw_metrics.curr_timestamp, frac: 0, scale: 0 },
                ),
                gauge_model(
                    "node_boot_time_seconds"@,
                    "Node boot time, in unixtime"@,
                    MetricValue { units: raw_metrics.up_timestamp, frac: 0, scale: 0 },
                ),
            ],
    {
        let mut r: Vec<PromMetric> = Vec::new();
        r.push(
            gauge(
                "node_time_seconds",
                "System time in seconds since epoch (1970)",
                MetricValue::from_int(raw_metrics.curr_timestamp),
            ),
        );
        r.push(
            gauge(
                "node_boot_time_seconds",
                "Node boot time, in unixtime",
                MetricValue::from_int(raw_metrics.up_timestamp),
            ),
        );
        proof {
            assert(metrics_model(r@) =~= seq![
                gauge_model(
                    "node_time_seconds"@,
                    "System time in seconds since epoch (1970)"@,
                    MetricValue { units: raw_metrics.curr_timestamp, frac: 0, scale: 0 },
                ),
                gauge_model(
                    "node_boot_time_seconds"@,
                    "Node boot time, in unixtime"@,
                    MetricValue { units: raw_metrics.up_timestamp, frac: 0, scale: 0 },
                ),
            ]);
        }
        r
    }

    pub fn get_name(&self) -> (r: String)
        ensures
            r@ == "time"@,
    {
        String::from_str("time")
    }
}

} // verus!
