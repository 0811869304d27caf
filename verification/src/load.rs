//! Load-average family: parses `/proc/loadavg`-style output
//! (`<f> <f> <f> <running>/<total> <lastpid>`) and projects the three load
//! averages and the total process count.

use vstd::prelude::*;

use crate::error::ParseError;
use crate::prometheus::{gauge, gauge_model, metrics_model, PromMetric};
use crate::text::{
    digit_run_end, digit_run_end_at, digits_val, chars_of, parse_u64_digits, trim, trim_chars,
};
use crate::transport::TomatoClientInternal;
use crate::value::MetricValue;

verus! {

#[derive(Debug, Clone, PartialEq, Eq)]
pub struct LoadClient {
    pub client: TomatoClientInternal,
}

#[derive(Debug, Clone, Copy, PartialEq, Eq, Structural)]
pub struct LoadInfo {
    pub load_1m: MetricValue,
    pub load_5m: MetricValue,
    pub load_15m: MetricValue,
    pub total_procs: u32,
}

/// A fixed-point decimal `<digits>.<digits>` starting at `i`: its exact
/// value and the position after it.  Nothing if the shape is absent, the
/// integer part exceeds `u64`, or there are more than 19 fractional digits.
pub open spec fn fixed_at(s: Seq<char>, i: nat) -> Option<(MetricValue, nat)> {
    let j = digit_run_end(s, i);
    let units = digits_val(s.subrange(i as int, j as int));
    if j == i || units > u64::MAX {
        Option::None
    } else if j >= s.len() || s[j as int] != '.' {
        Option::None
    } else {
        let k = digit_run_end(s, j + 1);
        let scale = k as int - j - 1;
        let fr = digits_val(s.subrange(j as int + 1, k as int));
        if scale <= 0 || scale > 19 {
            Option::None
        } else {
            Option::Some(
                (MetricValue { units: units as u64, frac: fr as u64, scale: scale as u8 }, k),
            )
        }
    }
}

/// The whole (trimmed) load line: three fixed-point load averages, a
/// `<running>/<total>` pair of which only `total` is kept, and a final
/// process id, with single spaces between the five fields.
pub open spec fn load_spec(s: Seq<char>) -> Option<LoadInfo> {
    match fixed_at(s, 0) {
        Option::None => Option::None,
        Option::Some((l1, i1)) => if i1 >= s.len() || s[i1 as int] != ' ' {
            Option::None
        } else {
            match fixed_at(s, (i1 + 1) as nat) {
                Option::None => Option::None,
                Option::Some((l5, i2)) => if i2 >= s.len() || s[i2 as int] != ' ' {
                    Option::None
                } else {
                    match fixed_at(s, (i2 + 1) as nat) {
                        Option::None => Option::None,
                        Option::Some((l15, i3)) => if i3 >= s.len() || s[i3 as int] != ' ' {
                            Option::None
                        } else {
                            load_tail_spec(s, (i3 + 1) as nat, l1, l5, l15)
                        },
                    }
                },
            }
        },
    }
}

/// `<running>/<total> <lastpid>` at `i`, ending the line.
pub open spec fn load_tail_spec(
    s: Seq<char>,
    i: nat,
    l1: MetricValue,
    l5: MetricValue,
    l15: MetricValue,
) -> Option<LoadInfo> {
    let r_end = digit_run_end(s, i);
    if r_end == i || r_end >= s.len() || s[r_end as int] != '/' {
        Option::None
    } else {
        let t_end = digit_run_end(s, r_end + 1);
        let total = digits_val(s.subrange(r_end as int + 1, t_end as int));
        if t_end == r_end + 1 || total > u32::MAX {
            Option::None
        } else if t_end >= s.len() || s[t_end as int] != ' ' {
            Option::None
        } else {
            let p_end = digit_run_end(s, t_end + 1);
            if p_end == t_end + 1 || p_end != s.len() {
                Option::None
            } else {
                Option::Some(
                    LoadInfo { load_1m: l1, load_5m: l5, load_15m: l15, total_procs: total as u32 },
                )
            }
        }
    }
}

/// Parses a fixed-point decimal at `i` in `v`.
fn parse_fixed_at(v: &Vec<char>, i: usize) -> (r: Option<(MetricValue, usize)>)
    requires
        i <= v.len(),
    ensures
        match r {
            Option::Some((mv, j)) => fixed_at(v@, i as nat) == Option::Some((mv, j as nat)) && i
                < j <= v.len(),
            Option::None => fixed_at(v@, i as nat) is None,
        },
{
    let j = digit_run_end_at(v, i);
    if j == i {
        return Option::None;
    }
    let units = match parse_u64_digits(v, i, j) {
        Option::Some(u) => u,
        Option::None => {
            return Option::None;
        },
    };
    if j >= v.len() || v[j] != '.' {
        return Option::None;
    }
    let k = digit_run_end_at(v, j + 1);
    if k == j + 1 || k - (j + 1) > 19 {
        return Option::None;
    }
    let fr = match parse_u64_digits(v, j + 1, k) {
        Option::Some(f) => f,
        Option::None => {
            proof {
                crate::text::lemma_digits_val_bound(v@.subrange(j + 1, k as int));
                crate::value::lemma_pow10_increases(v@.subrange(j + 1, k as int).len(), 19);
                crate::value::lemma_pow10_values();
            }
            return Option::None;
        },
    };
    let scale = (k - (j + 1)) as u8;
    Option::Some((MetricValue { units, frac: fr, scale }, k))
}

impl LoadClient {
    pub fn new(client: TomatoClientInternal) -> (r: LoadClient)
        ensures
            r.client == client,
    {
        LoadClient { client }
    }

    /// Parses the load-average line; fails exactly when the trimmed body
    /// does not match the pattern.
    pub fn parse_body(body: String) -> (r: Result<LoadInfo, ParseError>)
        ensures
            match r {
                Result::Ok(info) => load_spec(trim(body@)) == Option::Some(info),
                Result::Err(_) => load_spec(trim(body@)) is None,
            },
    {
        let chars = chars_of(body.as_str());
        let v = trim_chars(&chars);
        let (l1, i1) = match parse_fixed_at(&v, 0) {
            Option::Some(p) => p,
            Option::None => {
                return Result::Err(ParseError);
            },
        };
        if i1 >= v.len() || v[i1] != ' ' {
            return Result::Err(ParseError);
        }
        let (l5, i2) = match parse_fixed_at(&v, i1 + 1) {
            Option::Some(p) => p,
            Option::None => {
                return Result::Err(ParseError);
            },
        };
        if i2 >= v.len() || v[i2] != ' ' {
            return Result::Err(ParseError);
        }
        let (l15, i3) = match parse_fixed_at(&v, i2 + 1) {
            Option::Some(p) => p,
            Option::None => {
                return Result::Err(ParseError);
            },
        };
        if i3 >= v.len() || v[i3] != ' ' {
            return Result::Err(ParseError);
        }
        let r_end = digit_run_end_at(&v, i3 + 1);
        if r_end == i3 + 1 || r_end >= v.len() || v[r_end] != '/' {
            return Result::Err(ParseError);
        }
        let t_end = digit_run_end_at(&v, r_end + 1);
        if t_end == r_end + 1 {
            return Result::Err(ParseError);
        }
        let total = match parse_u64_digits(&v, r_end + 1, t_end) {
            Option::Some(t) => t,
            Option::None => {
                return Result::Err(ParseError);
            },
        };
        if total > u32::MAX as u64 {
            return Result::Err(ParseError);
        }
        if t_end >= v.len() || v[t_end] != ' ' {
            return Result::Err(ParseError);
        }
        let p_end = digit_run_end_at(&v, t_end + 1);
        if p_end == t_end + 1 || p_end != v.len() {
            return Result::Err(ParseError);
        }
        Result::Ok(
            LoadInfo { load_1m: l1, load_5m: l5, load_15m: l15, total_procs: total as u32 },
        )
    }

    /// Projects the measurement to its four gauge series.
    pub fn raw_to_prom(raw_metrics: LoadInfo) -> (r: Vec<PromMetric>)
        ensures
            metrics_model(r@) == seq![
                gauge_model("node_load1"@, "1m load average"@, raw_metrics.load_1m),
                gauge_model("node_load5"@, "5m load average"@, raw_metrics.load_5m),
                gauge_model("node_load15"@, "15m load average"@, raw_metrics.load_15m),
                gauge_model(
                    "node_processes_pids"@,
                    "Number of PIDs"@,
                    MetricValue { units: raw_metrics.total_procs as u64, frac: 0, scale: 0 },
                ),
            ],
    {
        let mut r: Vec<PromMetric> = Vec::new();
        r.push(gauge("node_load1", "1m load average", raw_metrics.load_1m));
        r.push(gauge("node_load5", "5m load average", raw_metrics.load_5m));
        r.push(gauge("node_load15", "15m load average", raw_metrics.load_15m));
        r.push(
            gauge(
                "node_processes_pids",
                "Number of PIDs",
                MetricValue::from_int(raw_metrics.total_procs as u64),
            ),
        );
        proof {
            assert(metrics_model(r@) =~= seq![
                gauge_model("node_load1"@, "1m load average"@, raw_metrics.load_1m),
                gauge_model("node_load5"@, "5m load average"@, raw_metrics.load_5m),
                gauge_model("node_load15"@, "15m load average"@, raw_metrics.load_15m),
                gauge_model(
                    "node_processes_pids"@,
                    "Number of PIDs"@,
                    MetricValue { units: raw_metrics.total_procs as u64, frac: 0, scale: 0 },
                ),
            ]);
        }
        r
    }

    pub fn get_name(&self) -> (r: String)
        ensures
            r@ == "load"@,
    {
        String::from_str("load")
    }
}

} // verus!
