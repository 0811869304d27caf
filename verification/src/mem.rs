//! Memory family: parses `/proc/meminfo`-style `<Name>: <N> kB` lines into
//! a sorted field table (values in bytes) and projects one gauge per field.

use vstd::prelude::*;

use crate::error::ParseError;
use crate::prometheus::{gauge, gauge_model, metrics_model, MetricModel, PromMetric};
use crate::table::{lookup, sorted_keys, upsert};
use crate::text::{
    chars_of, digit_run_end, digit_run_end_at, digits_val, find_char, find_char_at, line_split,
    space_run_end, space_run_end_at, split_lines, string_of_range, views_of,
};
use crate::transport::TomatoClientInternal;
use crate::value::MetricValue;

verus! {

#[derive(Debug, Clone, PartialEq, Eq)]
pub struct MemClient {
    pub client: TomatoClientInternal,
}

/// One meminfo line: a name without colons, a colon, whitespace, a decimal
/// kilobyte count, and ` kB`.  Yields the name and the count in kilobytes.
pub open spec fn mem_line(line: Seq<char>) -> Option<(Seq<char>, nat)> {
    let c = find_char(line, 0, ':');
    if c == 0 || c >= line.len() {
        Option::None
    } else {
        let d = space_run_end(line, c + 1);
        if d == c + 1 {
            Option::None
        } else {
            let e = digit_run_end(line, d);
            if e == d || e + 3 > line.len() {
                Option::None
            } else if line[e as int] != ' ' || line[e as int + 1] != 'k' || line[e as int + 2]
                != 'B' {
                Option::None
            } else {
                Option::Some((line.subrange(0, c as int), digits_val(line.subrange(d as int, e as int))))
            }
        }
    }
}

/// The kilobyte count of the last line naming `k`, if any line does.
pub open spec fn mem_value(ls: Seq<Seq<char>>, k: Seq<char>) -> Option<nat>
    decreases ls.len(),
{
    if ls.len() == 0 {
        Option::None
    } else {
        let rest = mem_value(ls.drop_last(), k);
        match mem_line(ls.last()) {
            Option::Some(p) => if p.0 == k {
                Option::Some(p.1)
            } else {
                rest
            },
            Option::None => rest,
        }
    }
}

/// Whether any line matches the meminfo pattern.
pub open spec fn mem_matched(ls: Seq<Seq<char>>) -> bool {
    exists|i: int| 0 <= i < ls.len() && (#[trigger] mem_line(ls[i])) is Some
}

/// Whether some matching line's byte count (kilobytes times 1024) does not
/// fit in a `u64`.
pub open spec fn mem_overflow(ls: Seq<Seq<char>>) -> bool {
    exists|i: int|
        0 <= i < ls.len() && match #[trigger] mem_line(ls[i]) {
            Option::Some(p) => p.1 * 1024 > u64::MAX,
            Option::None => false,
        }
}

pub open spec fn scaled(v: Option<nat>) -> Option<u64> {
    match v {
        Option::Some(n) => Option::Some((n * 1024) as u64),
        Option::None => Option::None,
    }
}

/// Parses one line; `Err` when the line matches but its kilobyte count
/// alone already exceeds `u64`.
fn parse_mem_line(line: &Vec<char>) -> (r: Result<Option<(String, u64)>, ParseError>)
    ensures
        match r {
            Result::Ok(Option::Some(p)) => mem_line(line@) == Option::Some((p.0@, p.1 as nat)),
            Result::Ok(Option::None) => mem_line(line@) is None,
            Result::Err(_) => match mem_line(line@) {
                Option::Some(p) => p.1 > u64::MAX,
                Option::None => false,
            },
        },
{
    let c = find_char_at(line, 0, ':');
    if c == 0 || c >= line.len() {
        return Result::Ok(Option::None);
    }
    let d = space_run_end_at(line, c + 1);
    if d == c + 1 {
        return Result::Ok(Option::None);
    }
    let e = digit_run_end_at(line, d);
    if e == d || line.len() < 3 || e > line.len() - 3 {
        return Result::Ok(Option::None);
    }
    if line[e] != ' ' || line[e + 1] != 'k' || line[e + 2] != 'B' {
        return Result::Ok(Option::None);
    }
    let val = match crate::text::parse_u64_digits(line, d, e) {
        Option::Some(n) => n,
        Option::None => {
            return Result::Err(ParseError);
        },
    };
    let name = string_of_range(line, 0, c);
    Result::Ok(Option::Some((name, val)))
}

impl MemClient {
    pub fn new(client: TomatoClientInternal) -> (r: MemClient)
        ensures
            r.client == client,
    {
        MemClient { client }
    }

    /// Parses the whole body into a sorted name -> bytes table, later lines
    /// overriding earlier ones of the same name.  Fails exactly when no
    /// line matches the pattern or some matching line's byte count does not
    /// fit in a `u64`.
    pub fn parse_body(body: String) -> (r: Result<Vec<(String, u64)>, ParseError>)
        ensures
            match r {
                Result::Ok(t) => {
                    &&& sorted_keys(t@)
                    &&& mem_matched(line_split(body@))
                    &&& !mem_overflow(line_split(body@))
                    &&& forall|k: Seq<char>| #![trigger lookup(t@, k)]
                        lookup(t@, k) == scaled(mem_value(line_split(body@), k))
                },
                Result::Err(_) => !mem_matched(line_split(body@)) || mem_overflow(
                    line_split(body@),
                ),
            },
    {
        let chars = chars_of(body.as_str());
        let lines = split_lines(&chars);
        let ghost ls = line_split(body@);
        let mut t: Vec<(String, u64)> = Vec::new();
        let mut matched = false;
        let mut i: usize = 0;
        proof {
            assert(ls.take(0) =~= Seq::<Seq<char>>::empty());
        }
        while i < lines.len()
            invariant
                i <= lines.len(),
                views_of(lines@) == ls,
                ls == line_split(body@),
                sorted_keys(t@),
                matched == mem_matched(ls.take(i as int)),
                !mem_overflow(ls.take(i as int)),
                forall|k: Seq<char>| #![trigger lookup(t@, k)]
                    lookup(t@, k) == scaled(mem_value(ls.take(i as int), k)),
            decreases lines.len() - i,
        {
            let ghost pre = ls.take(i as int);
            let ghost cur = ls.take(i + 1);
            proof {
                assert(cur.drop_last() =~= pre);
                assert(cur.last() == ls[i as int]);
                assert(lines@[i as int]@ == ls[i as int]);
            }
            match parse_mem_line(&lines[i]) {
                Result::Ok(Option::Some(p)) => {
                    let (name, raw) = p;
                    let bytes = match raw.checked_mul(1024) {
                        Option::Some(b) => b,
                        Option::None => {
                            proof {
                                assert(0 <= i < ls.len() && match mem_line(ls[i as int]) {
                                    Option::Some(q) => q.1 * 1024 > u64::MAX,
                                    Option::None => false,
                                });
                            }
                            return Result::Err(ParseError);
                        },
                    };
                    let ghost nm = name@;
                    upsert(&mut t, name, bytes);
                    matched = true;
                    proof {
                        assert(mem_matched(cur)) by {
                            assert(0 <= i < cur.len() && mem_line(cur[i as int]) is Some);
                        }
                        assert(!mem_overflow(cur)) by {
                            assert forall|j: int|
                                0 <= j < cur.len() implies !(match #[trigger] mem_line(
                                cur[j],
                            ) {
                                Option::Some(q) => q.1 * 1024 > u64::MAX,
                                Option::None => false,
                            }) by {
                                assert(cur[j] == ls[j]);
                                if j < i {
                                    assert(pre[j] == ls[j]);
                                    assert(!(match mem_line(pre[j]) {
                                        Option::Some(q) => q.1 * 1024 > u64::MAX,
                                        Option::None => false,
                                    }));
                                }
                            }
                        }
                        assert forall|k: Seq<char>| #![trigger lookup(t@, k)]
                            lookup(t@, k) == scaled(mem_value(cur, k)) by {
                            if k == nm {
                                assert(mem_value(cur, k) == Option::Some(raw as nat));
                            } else {
                                assert(mem_value(cur, k) == mem_value(pre, k));
                            }
                        }
                    }
                },
                Result::Ok(Option::None) => {
                    proof {
                        assert(mem_matched(cur) == mem_matched(pre)) by {
                            if mem_matched(pre) {
                                let j = choose|j: int|
                                    0 <= j < pre.len() && (#[trigger] mem_line(pre[j])) is Some;
                                assert(cur[j] == pre[j]);
                                assert(mem_line(cur[j]) is Some);
                            }
                            if mem_matched(cur) {
                                let j = choose|j: int|
                                    0 <= j < cur.len() && (#[trigger] mem_line(cur[j])) is Some;
                                if j < i {
                                    assert(pre[j] == cur[j]);
                                    assert(mem_line(pre[j]) is Some);
                                } else {
                                    assert(cur[j] == ls[i as int]);
                                }
                            }
                        }
                        assert(!mem_overflow(cur)) by {
                            assert forall|j: int|
                                0 <= j < cur.len() implies !(match #[trigger] mem_line(
                                cur[j],
                            ) {
                                Option::Some(q) => q.1 * 1024 > u64::MAX,
                                Option::None => false,
                            }) by {
                                assert(cur[j] == ls[j]);
                                if j < i {
                                    assert(pre[j] == ls[j]);
                                    assert(!(match mem_line(pre[j]) {
                                        Option::Some(q) => q.1 * 1024 > u64::MAX,
                                        Option::None => false,
                                    }));
                                }
                            }
                        }
                        assert forall|k: Seq<char>| #![trigger lookup(t@, k)]
                            lookup(t@, k) == scaled(mem_value(cur, k)) by {
                            assert(mem_value(cur, k) == mem_value(pre, k));
                        }
                    }
                },
                Result::Err(_) => {
                    proof {
                        assert(0 <= i < ls.len() && match mem_line(ls[i as int]) {
                            Option::Some(q) => q.1 * 1024 > u64::MAX,
                            Option::None => false,
                        }) by {
                            assert(match mem_line(ls[i as int]) {
                                Option::Some(q) => q.1 > u64::MAX,
                                Option::None => false,
                            });
                            match mem_line(ls[i as int]) {
                                Option::Some(q) => {
                                    assert(q.1 * 1024 >= q.1 * 1) by (nonlinear_arith);
                                },
                                Option::None => {},
                            }
                        }
                    }
                    return Result::Err(ParseError);
                },
            }
            i += 1;
        }
        proof {
            assert(ls.take(lines@.len() as int) =~= ls);
        }
        if !matched {
            return Result::Err(ParseError);
        }
        Result::Ok(t)
    }

    /// One `node_memory_<Field>_bytes` gauge per table entry, in table
    /// (lexicographic) order.
    pub open spec fn mem_metrics(t: Seq<(String, u64)>) -> Seq<MetricModel>
        decreases t.len(),
    {
        if t.len() == 0 {
            Seq::empty()
        } else {
            Self::mem_metrics(t.drop_last()) + seq![
                gauge_model(
                    "node_memory_"@ + t.last().0@ + "_bytes"@,
                    "Memory information field "@ + t.last().0@ + "_bytes"@,
                    MetricValue { units: t.last().1, frac: 0, scale: 0 },
                ),
            ]
        }
    }

    /// Projects the field table to its gauges, in table order.
    pub fn raw_to_prom(raw_metrics: Vec<(String, u64)>) -> (r: Vec<PromMetric>)
        ensures
            metrics_model(r@) == Self::mem_metrics(raw_metrics@),
    {
        let mut r: Vec<PromMetric> = Vec::new();
        let mut i: usize = 0;
        proof {
            assert(raw_metrics@.take(0) =~= Seq::<(String, u64)>::empty());
            assert(metrics_model(r@) =~= Self::mem_metrics(raw_metrics@.take(0)));
        }
        while i < raw_metrics.len()
            invariant
                i <= raw_metrics.len(),
                metrics_model(r@) == Self::mem_metrics(raw_metrics@.take(i as int)),
            decreases raw_metrics.len() - i,
        {
            let name = String::from_str("node_memory_").concat(raw_metrics[i].0.as_str()).concat(
                "_bytes",
            );
            let help = String::from_str("Memory information field ").concat(
                raw_metrics[i].0.as_str(),
            ).concat("_bytes");
            let ghost rm0 = metrics_model(r@);
            let m = gauge(
                name.as_str(),
                help.as_str(),
                MetricValue::from_int(raw_metrics[i].1),
            );
            r.push(m);
            proof {
                let part = raw_metrics@.take(i + 1);
                assert(part.drop_last() =~= raw_metrics@.take(i as int));
                assert(part.last() == raw_metrics@[i as int]);
                assert(metrics_model(r@) =~= rm0.push(metric_model_of_gauge(part.last())));
                assert(metrics_model(r@) =~= Self::mem_metrics(part));
            }
            i += 1;
        }
        proof {
            assert(raw_metrics@.take(raw_metrics@.len() as int) =~= raw_metrics@);
        }
        r
    }
}

/// The gauge model of one memory table entry.
pub open spec fn metric_model_of_gauge(e: (String, u64)) -> MetricModel {
    gauge_model(
        "node_memory_"@ + e.0@ + "_bytes"@,
        "Memory information field "@ + e.0@ + "_bytes"@,
        MetricValue { units: e.1, frac: 0, scale: 0 },
    )
}


proof fn lemma_mem_metrics_congruent(t1: Seq<(String, u64)>, t2: Seq<(String, u64)>)
    requires
        t1.len() == t2.len(),
        forall|i: int| 0 <= i < t1.len() ==> (#[trigger] t1[i].0@) == t2[i].0@ && t1[i].1
            == t2[i].1,
    ensures
        MemClient::mem_metrics(t1) == MemClient::mem_metrics(t2),
    decreases t1.len(),
{
    if t1.len() > 0 {
        assert forall|i: int|
            0 <= i < t1.drop_last().len() implies (#[trigger] t1.drop_last()[i].0@)
            == t2.drop_last()[i].0@ && t1.drop_last()[i].1 == t2.drop_last()[i].1 by {
            assert(t1.drop_last()[i] == t1[i] && t2.drop_last()[i] == t2[i]);
        }
        lemma_mem_metrics_congruent(t1.drop_last(), t2.drop_last());
        assert(t1.last().0@ == t2.last().0@ && t1.last().1 == t2.last().1);
        assert(metric_model_of_gauge(t1.last()) == metric_model_of_gauge(t2.last()));
    }
}

/// Sorted field tables holding the same mapping project to the very same
/// metric sequence, in lexicographic field order: projection cannot depend
/// on the order in which the device happened to report the fields.
pub proof fn lemma_mem_projection_canonical(t1: Seq<(String, u64)>, t2: Seq<(String, u64)>)
    requires
        sorted_keys(t1),
        sorted_keys(t2),
        forall|k: Seq<char>| #![trigger lookup(t1, k)] lookup(t1, k) == lookup(t2, k),
    ensures
        MemClient::mem_metrics(t1) == MemClient::mem_metrics(t2),
{
    crate::table::lemma_sorted_lookup_determines(t1, t2);
    assert forall|i: int|
        0 <= i < t1.len() implies (#[trigger] t1[i].0@) == t2[i].0@ && t1[i].1 == t2[i].1 by {
        assert(t1[i].0@ == t2[i].0@ && t1[i].1 == t2[i].1);
    }
    lemma_mem_metrics_congruent(t1, t2);
}


/// Each metric of the projection corresponds to the table entry at the
/// same position; with a sorted table the emitted fields follow the
/// lexicographic key order.
pub proof fn lemma_mem_metric_at(t: Seq<(String, u64)>, i: int)
    requires
        0 <= i < t.len(),
    ensures
        MemClient::mem_metrics(t).len() == t.len(),
        MemClient::mem_metrics(t)[i] == metric_model_of_gauge(t[i]),
    decreases t.len(),
{
    reveal_with_fuel(MemClient::mem_metrics, 3);
    if i == t.len() - 1 {
        if t.len() > 1 {
            lemma_mem_metric_at(t.drop_last(), 0);
        }
    } else {
        lemma_mem_metric_at(t.drop_last(), i);
        assert(t.drop_last()[i] == t[i]);
    }
}

} // verus!

