//! CPU family: parses `/proc/stat`-style `cpu<N> <jiffies...>` lines and
//! projects per-CPU, per-mode counters in seconds (jiffies / 100).
//!
//! Four jiffie columns are required; columns five to eight are optional and
//! their absence is preserved, as an older kernel reports fewer columns.

use vstd::prelude::*;

use crate::error::ParseError;
use crate::prometheus::{
    metric_model, metrics_model, sample_model, samples_model, MetricModel, PromLabel, PromMetric,
    PromMetricType, PromSample, SampleModel,
};
use crate::table::{lookup_u8, sorted_u8, upsert_u8};
use crate::text::{
    all_digits, chars_of, digit_run_end, digit_run_end_at, digits_val, line_split, split_at_char,
    split_from, split_lines, vec_sub, views_of,
};
use crate::transport::TomatoClientInternal;
use crate::value::{dec_digits, MetricValue};

verus! {

#[derive(Debug, Clone, PartialEq, Eq)]
pub struct CpuClient {
    pub client: TomatoClientInternal,
}

/// Jiffie counts of one CPU line; the first four columns are required, the
/// next four optional.
#[derive(Debug, Clone, Copy, PartialEq, Eq, Structural)]
pub struct CpuStats {
    pub user: u32,
    pub nice: u32,
    pub system: u32,
    pub idle: u32,
    pub iowait: Option<u32>,
    pub irq: Option<u32>,
    pub softirq: Option<u32>,
    pub steal: Option<u32>,
}

/// `cpu<digits> ` at the start of a line: the CPU number's value and the
/// position right after the space.
pub open spec fn cpu_head(line: Seq<char>) -> Option<(nat, nat)> {
    if line.len() < 4 || line[0] != 'c' || line[1] != 'p' || line[2] != 'u' {
        Option::None
    } else {
        let j = digit_run_end(line, 3);
        if j == 3 || j >= line.len() || line[j as int] != ' ' {
            Option::None
        } else {
            Option::Some((digits_val(line.subrange(3, j as int)), j + 1))
        }
    }
}

/// The jiffie columns after the head: the rest of the line split on single
/// spaces.
pub open spec fn cpu_toks(line: Seq<char>, start: nat) -> Seq<Seq<char>> {
    split_from(line.subrange(start as int, line.len() as int), 0, ' ')
}

/// Every column is a nonempty digit run.
pub open spec fn toks_numeric(toks: Seq<Seq<char>>) -> bool {
    forall|i: int| 0 <= i < toks.len() ==> (#[trigger] toks[i]).len() > 0 && all_digits(toks[i])
}

pub open spec fn tok_vals(toks: Seq<Seq<char>>) -> Seq<nat> {
    toks.map(|i: int, t: Seq<char>| digits_val(t))
}

/// A CPU line is well formed when its number fits in a `u8`, its columns
/// are all numeric and fit in a `u32`, and there are at least four of them.
pub open spec fn cpu_line_good(line: Seq<char>) -> bool {
    match cpu_head(line) {
        Option::None => false,
        Option::Some((id, start)) => {
            let toks = cpu_toks(line, start);
            id <= u8::MAX && toks_numeric(toks) && toks.len() >= 4 && (forall|i: int|
                0 <= i < toks.len() ==> (#[trigger] tok_vals(toks)[i]) <= u32::MAX)
        },
    }
}

/// A line that names a CPU but is not well formed: the whole parse fails.
pub open spec fn cpu_line_faulty(line: Seq<char>) -> bool {
    cpu_head(line) is Some && !cpu_line_good(line)
}

pub open spec fn stats_of(vals: Seq<nat>) -> CpuStats {
    CpuStats {
        user: vals[0] as u32,
        nice: vals[1] as u32,
        system: vals[2] as u32,
        idle: vals[3] as u32,
        iowait: if vals.len() > 4 {
            Option::Some(vals[4] as u32)
        } else {
            Option::None
        },
        irq: if vals.len() > 5 {
            Option::Some(vals[5] as u32)
        } else {
            Option::None
        },
        softirq: if vals.len() > 6 {
            Option::Some(vals[6] as u32)
        } else {
            Option::None
        },
        steal: if vals.len() > 7 {
            Option::Some(vals[7] as u32)
        } else {
            Option::None
        },
    }
}

/// The record of one well-formed CPU line.
pub open spec fn cpu_entry(line: Seq<char>) -> Option<(u8, CpuStats)> {
    match cpu_head(line) {
        Option::Some((id, start)) => if cpu_line_good(line) {
            Option::Some((id as u8, stats_of(tok_vals(cpu_toks(line, start)))))
        } else {
            Option::None
        },
        Option::None => Option::None,
    }
}

/// The record of the last well-formed line for CPU `k`, if any.
pub open spec fn cpu_value(ls: Seq<Seq<char>>, k: u8) -> Option<CpuStats>
    decreases ls.len(),
{
    if ls.len() == 0 {
        Option::None
    } else {
        let rest = cpu_value(ls.drop_last(), k);
        match cpu_entry(ls.last()) {
            Option::Some(p) => if p.0 == k {
                Option::Some(p.1)
            } else {
                rest
            },
            Option::None => rest,
        }
    }
}

pub open spec fn cpu_matched(ls: Seq<Seq<char>>) -> bool {
    exists|i: int| 0 <= i < ls.len() && (#[trigger] cpu_head(ls[i])) is Some
}

pub open spec fn cpu_any_faulty(ls: Seq<Seq<char>>) -> bool {
    exists|i: int| 0 <= i < ls.len() && cpu_line_faulty(#[trigger] ls[i])
}

/// Parses one line: the entry of a well-formed CPU line, nothing for a
/// line that names no CPU, an error for a malformed CPU line.
fn parse_cpu_line(line: &Vec<char>) -> (r: Result<Option<(u8, CpuStats)>, ParseError>)
    ensures
        match r {
            Result::Ok(Option::Some(p)) => cpu_entry(line@) == Option::Some(p),
            Result::Ok(Option::None) => cpu_head(line@) is None,
            Result::Err(_) => cpu_line_faulty(line@),
        },
{
    if line.len() < 4 || line[0] != 'c' || line[1] != 'p' || line[2] != 'u' {
        return Result::Ok(Option::None);
    }
    let j = digit_run_end_at(line, 3);
    if j == 3 || j >= line.len() || line[j] != ' ' {
        return Result::Ok(Option::None);
    }
    proof {
        assert(cpu_head(line@) == Option::Some(
            (digits_val(line@.subrange(3, j as int)), (j + 1) as nat),
        ));
    }
    let id = match crate::text::parse_u64_digits(line, 3, j) {
        Option::Some(n) => n,
        Option::None => {
            return Result::Err(ParseError);
        },
    };
    if id > u8::MAX as u64 {
        return Result::Err(ParseError);
    }
    let rest = vec_sub(line, j + 1, line.len());
    let toks = split_at_char(&rest, ' ');
    let ghost tv = views_of(toks@);
    proof {
        assert(tv == cpu_toks(line@, (j + 1) as nat));
    }
    let mut vals: Vec<u32> = Vec::new();
    let mut i: usize = 0;
    while i < toks.len()
        invariant
            i <= toks.len(),
            tv == views_of(toks@),
            tv == cpu_toks(line@, (j + 1) as nat),
            cpu_head(line@) == Option::Some(
                (digits_val(line@.subrange(3, j as int)), (j + 1) as nat),
            ),
            3 < j < line.len(),
            vals.len() == i,
            forall|m: int| 0 <= m < i ==> (#[trigger] tv[m]).len() > 0 && all_digits(tv[m]),
            forall|m: int| 0 <= m < i ==> (#[trigger] vals@[m]) as nat == digits_val(tv[m]),
        decreases toks.len() - i,
    {
        let tok = &toks[i];
        let e = digit_run_end_at(tok, 0);
        if tok.len() == 0 || e != tok.len() {
            proof {
                assert(tv[i as int] == toks@[i as int]@);
                if tok.len() > 0 {
                    assert(!all_digits(tv[i as int])) by {
                        assert(0 <= e < tv[i as int].len() && !crate::text::is_digit(
                            tv[i as int][e as int],
                        ));
                    }
                }
                assert(!(tv[i as int].len() > 0 && all_digits(tv[i as int])));
                assert(!toks_numeric(tv));
                assert(!cpu_line_good(line@));
                assert(cpu_line_faulty(line@));
            }
            return Result::Err(ParseError);
        }
        let v = match crate::text::parse_u64_digits(tok, 0, e) {
            Option::Some(n) => n,
            Option::None => {
                proof {
                    assert(tok@.subrange(0, e as int) =~= tv[i as int]);
                    assert(tok_vals(tv)[i as int] == digits_val(tv[i as int]));
                    assert(!cpu_line_good(line@));
                    assert(cpu_line_faulty(line@));
                }
                return Result::Err(ParseError);
            },
        };
        proof {
            assert(tok@.subrange(0, e as int) =~= tv[i as int]);
        }
        if v > u32::MAX as u64 {
            proof {
                assert(tok_vals(tv)[i as int] == digits_val(tv[i as int]));
                assert(!cpu_line_good(line@));
                assert(cpu_line_faulty(line@));
            }
            return Result::Err(ParseError);
        }
        vals.push(v as u32);
        i += 1;
    }
    if vals.len() < 4 {
        proof {
            assert(!cpu_line_good(line@));
        }
        return Result::Err(ParseError);
    }
    let stats = CpuStats {
        user: vals[0],
        nice: vals[1],
        system: vals[2],
        idle: vals[3],
        iowait: if vals.len() > 4 {
            Option::Some(vals[4])
        } else {
            Option::None
        },
        irq: if vals.len() > 5 {
            Option::Some(vals[5])
        } else {
            Option::None
        },
        softirq: if vals.len() > 6 {
            Option::Some(vals[6])
        } else {
            Option::None
        },
        steal: if vals.len() > 7 {
            Option::Some(vals[7])
        } else {
            Option::None
        },
    };
    proof {
        assert(toks_numeric(tv));
        assert forall|m: int| 0 <= m < tv.len() implies (#[trigger] tok_vals(tv)[m])
            <= u32::MAX by {
            assert(tok_vals(tv)[m] == digits_val(tv[m]));
            assert(vals@[m] as nat == digits_val(tv[m]));
        }
        assert(cpu_line_good(line@));
        assert(stats == stats_of(tok_vals(tv))) by {
            assert(tok_vals(tv).len() == tv.len());
            assert(forall|m: int| 0 <= m < tv.len() ==> (#[trigger] tok_vals(tv)[m]) == digits_val(
                tv[m],
            ));
        }
        assert(cpu_entry(line@) == Option::Some((id as u8, stats)));
    }
    Result::Ok(Option::Some((id as u8, stats)))
}

impl CpuClient {
    pub fn new(client: TomatoClientInternal) -> (r: CpuClient)
        ensures
            r.client == client,
    {
        CpuClient { client }
    }

    /// Parses the whole body into a table of CPU number -> jiffie counts,
    /// sorted by CPU number, later lines overriding earlier ones.  Fails
    /// exactly when no line names a CPU or some CPU line is malformed.
    pub fn parse_body(body: String) -> (r: Result<Vec<(u8, CpuStats)>, ParseError>)
        ensures
            match r {
                Result::Ok(t) => {
                    &&& sorted_u8(t@)
                    &&& cpu_matched(line_split(body@))
                    &&& !cpu_any_faulty(line_split(body@))
                    &&& forall|k: u8| #![trigger lookup_u8(t@, k)]
                        lookup_u8(t@, k) == cpu_value(line_split(body@), k)
                },
                Result::Err(_) => !cpu_matched(line_split(body@)) || cpu_any_faulty(
                    line_split(body@),
                ),
            },
    {
        let chars = chars_of(body.as_str());
        let lines = split_lines(&chars);
        let ghost ls = line_split(body@);
        let mut t: Vec<(u8, CpuStats)> = Vec::new();
        let mut matched = false;
        let mut i: usize = 0;
        proof {
            assert(ls.take(0) =~= Seq::<Seq<char>>::empty());
        }
        while i < lines.len()
            invariant
                i <= lines.len(),
                views_of(lines@) == ls,
                ls == line_split(body@),
                sorted_u8(t@),
                matched == cpu_matched(ls.take(i as int)),
                !cpu_any_faulty(ls.take(i as int)),
                forall|k: u8| #![trigger lookup_u8(t@, k)]
                    lookup_u8(t@, k) == cpu_value(ls.take(i as int), k),
            decreases lines.len() - i,
        {
            let ghost pre = ls.take(i as int);
            let ghost cur = ls.take(i + 1);
            proof {
                assert(cur.drop_last() =~= pre);
                assert(cur.last() == ls[i as int]);
                assert(lines@[i as int]@ == ls[i as int]);
            }
            match parse_cpu_line(&lines[i]) {
                Result::Ok(Option::Some(p)) => {
                    let (id, stats) = p;
                    upsert_u8(&mut t, id, stats);
                    matched = true;
                    proof {
                        assert(cpu_matched(cur)) by {
                            assert(0 <= i < cur.len() && cpu_head(cur[i as int]) is Some);
                        }
                        assert(!cpu_any_faulty(cur)) by {
                            assert forall|j: int|
                                0 <= j < cur.len() implies !cpu_line_faulty(
                                #[trigger] cur[j],
                            ) by {
                                assert(cur[j] == ls[j]);
                                if j < i {
                                    assert(pre[j] == ls[j]);
                                    assert(!cpu_line_faulty(pre[j]));
                                }
                            }
                        }
                        assert forall|k: u8| #![trigger lookup_u8(t@, k)]
                            lookup_u8(t@, k) == cpu_value(cur, k) by {
                            if k == id {
                                assert(cpu_value(cur, k) == Option::Some(stats));
                            } else {
                                assert(cpu_value(cur, k) == cpu_value(pre, k));
                            }
                        }
                    }
                },
                Result::Ok(Option::None) => {
                    proof {
                        assert(cpu_matched(cur) == cpu_matched(pre)) by {
                            if cpu_matched(pre) {
                                let j = choose|j: int|
                                    0 <= j < pre.len() && (#[trigger] cpu_head(pre[j])) is Some;
                                assert(cur[j] == pre[j]);
                                assert(cpu_head(cur[j]) is Some);
                            }
                            if cpu_matched(cur) {
                                let j = choose|j: int|
                                    0 <= j < cur.len() && (#[trigger] cpu_head(cur[j])) is Some;
                                if j < i {
                                    assert(pre[j] == cur[j]);
                                    assert(cpu_head(pre[j]) is Some);
                                } else {
                                    assert(cur[j] == ls[i as int]);
                                }
                            }
                        }
                        assert(!cpu_any_faulty(cur)) by {
                            assert forall|j: int|
                                0 <= j < cur.len() implies !cpu_line_faulty(
                                #[trigger] cur[j],
                            ) by {
                                assert(cur[j] == ls[j]);
                                if j < i {
                                    assert(pre[j] == ls[j]);
                                    assert(!cpu_line_faulty(pre[j]));
                                }
                            }
                        }
                        assert forall|k: u8| #![trigger lookup_u8(t@, k)]
                            lookup_u8(t@, k) == cpu_value(cur, k) by {
                            assert(cpu_value(cur, k) == cpu_value(pre, k));
                        }
                    }
                },
                Result::Err(_) => {
                    proof {
                        assert(cpu_any_faulty(ls)) by {
                            assert(0 <= i < ls.len() && cpu_line_faulty(ls[i as int]));
                        }
                    }
                    return Result::Err(ParseError);
                },
            }
            i += 1;
        }
        proof {
            assert(ls.take(lines@.len() as int) =~= ls);
        }
        if !matched {
            return Result::Err(ParseError);
        }
        Result::Ok(t)
    }

    pub fn get_name(&self) -> (r: String)
        ensures
            r@ == "cpu"@,
    {
        String::from_str("cpu")
    }
}

/// The sample of one CPU and mode: labelled with the CPU number and the
/// mode name, valued in seconds as jiffies / 100, exactly.
pub open spec fn cpu_sample(id: u8, mode: Seq<char>, j: u32) -> SampleModel {
    (
        seq![("cpu"@, dec_digits(id as nat)), ("mode"@, mode)],
        MetricValue { units: j as u64 / 100, frac: j as u64 % 100, scale: 2 },
        Option::<u64>::None,
    )
}

pub open spec fn opt_cpu_sample(id: u8, mode: Seq<char>, o: Option<u32>) -> Seq<SampleModel> {
    match o {
        Option::Some(j) => seq![cpu_sample(id, mode, j)],
        Option::None => Seq::empty(),
    }
}

/// The samples of one CPU: the four required modes, then each optional
/// mode that the kernel reported.
pub open spec fn cpu_entry_samples(e: (u8, CpuStats)) -> Seq<SampleModel> {
    seq![
        cpu_sample(e.0, "user"@, e.1.user),
        cpu_sample(e.0, "nice"@, e.1.nice),
        cpu_sample(e.0, "system"@, e.1.system),
        cpu_sample(e.0, "idle"@, e.1.idle),
    ] + opt_cpu_sample(e.0, "iowait"@, e.1.iowait) + opt_cpu_sample(e.0, "irq"@, e.1.irq)
        + opt_cpu_sample(e.0, "softirq"@, e.1.softirq) + opt_cpu_sample(e.0, "steal"@, e.1.steal)
}

/// All samples of the table, in table order.
pub open spec fn cpu_samples(t: Seq<(u8, CpuStats)>) -> Seq<SampleModel>
    decreases t.len(),
{
    if t.len() == 0 {
        Seq::empty()
    } else {
        cpu_samples(t.drop_last()) + cpu_entry_samples(t.last())
    }
}

fn cpu_sample_exec(id: u8, mode: &str, j: u32) -> (s: PromSample)
    ensures
        sample_model(s) == cpu_sample(id, mode@, j),
{
    let mut labels: Vec<PromLabel> = Vec::new();
    let digits = crate::value::dec_digit_chars(id as u64);
    labels.push(PromLabel::new("cpu", crate::text::string_of_chars(&digits)));
    labels.push(PromLabel::new("mode", mode.to_owned()));
    let s = PromSample::new(labels, MetricValue::from_centi(j as u64), Option::None);
    proof {
        assert(sample_model(s) =~~= cpu_sample(id, mode@, j));
    }
    s
}

impl CpuClient {
    /// Projects the table to the single `node_cpu_seconds_total` counter.
    pub fn raw_to_prom(cpus: Vec<(u8, CpuStats)>) -> (r: Vec<PromMetric>)
        ensures
            metrics_model(r@) == seq![
                (
                    "node_cpu_seconds_total"@,
                    "Seconds the cpus spent in each mode"@,
                    PromMetricType::Counter,
                    cpu_samples(cpus@),
                ),
            ],
    {
        let mut samples: Vec<PromSample> = Vec::new();
        let mut i: usize = 0;
        proof {
            assert(cpus@.take(0) =~= Seq::<(u8, CpuStats)>::empty());
            assert(samples_model(samples@) =~= cpu_samples(cpus@.take(0)));
        }
        while i < cpus.len()
            invariant
                i <= cpus.len(),
                samples_model(samples@) == cpu_samples(cpus@.take(i as int)),
            decreases cpus.len() - i,
        {
            let (id, st) = (cpus[i].0, cpus[i].1);
            let ghost base = samples_model(samples@);
            samples.push(cpu_sample_exec(id, "user", st.user));
            samples.push(cpu_sample_exec(id, "nice", st.nice));
            samples.push(cpu_sample_exec(id, "system", st.system));
            samples.push(cpu_sample_exec(id, "idle", st.idle));
            proof {
                assert(samples_model(samples@) =~= base + seq![
                    cpu_sample(id, "user"@, st.user),
                    cpu_sample(id, "nice"@, st.nice),
                    cpu_sample(id, "system"@, st.system),
                    cpu_sample(id, "idle"@, st.idle),
                ]);
            }
            let ghost base4 = samples_model(samples@);
            match st.iowait {
                Option::Some(j) => {
                    samples.push(cpu_sample_exec(id, "iowait", j));
                },
                Option::None => {},
            }
            proof {
                assert(samples_model(samples@) =~= base4 + opt_cpu_sample(id, "iowait"@, st.iowait));
            }
            let ghost base5 = samples_model(samples@);
            match st.irq {
                Option::Some(j) => {
                    samples.push(cpu_sample_exec(id, "irq", j));
                },
                Option::None => {},
            }
            proof {
                assert(samples_model(samples@) =~= base5 + opt_cpu_sample(id, "irq"@, st.irq));
            }
            let ghost base6 = samples_model(samples@);
            match st.softirq {
                Option::Some(j) => {
                    samples.push(cpu_sample_exec(id, "softirq", j));
                },
                Option::None => {},
            }
            proof {
                assert(samples_model(samples@) =~= base6 + opt_cpu_sample(id, "softirq"@, st.softirq));
            }
            let ghost base7 = samples_model(samples@);
            match st.steal {
                Option::Some(j) => {
                    samples.push(cpu_sample_exec(id, "steal", j));
                },
                Option::None => {},
            }
            proof {
                assert(samples_model(samples@) =~= base7 + opt_cpu_sample(id, "steal"@, st.steal));
                let part = cpus@.take(i + 1);
                assert(part.drop_last() =~= cpus@.take(i as int));
                assert(part.last() == cpus@[i as int]);
                assert(cpus@[i as int] == (id, st));
                assert(samples_model(samples@) =~= base + cpu_entry_samples((id, st)));
                assert(samples_model(samples@) =~= cpu_samples(part));
            }
            i += 1;
        }
        proof {
            assert(cpus@.take(cpus@.len() as int) =~= cpus@);
        }
        let metric = PromMetric::new(
            "node_cpu_seconds_total",
            "Seconds the cpus spent in each mode",
            PromMetricType::Counter,
            samples,
        );
        let mut r: Vec<PromMetric> = Vec::new();
        r.push(metric);
        proof {
            assert(metrics_model(r@) =~= seq![metric_model(r@[0])]);
            assert(metric_model(r@[0]) =~~= (
                "node_cpu_seconds_total"@,
                "Seconds the cpus spent in each mode"@,
                PromMetricType::Counter,
                cpu_samples(cpus@),
            ));
            assert(metrics_model(r@) =~= seq![
                (
                    "node_cpu_seconds_total"@,
                    "Seconds the cpus spent in each mode"@,
                    PromMetricType::Counter,
                    cpu_samples(cpus@),
                ),
            ]);
        }
        r
    }
}


/// Tables that parsing the same body may return are all one table: with
/// `lemma_response_rendered_determined`, re-projecting and re-rendering a
/// parse of identical input is deterministic, byte for byte.
pub proof fn lemma_cpu_parse_deterministic(
    body: Seq<char>,
    t1: Seq<(u8, CpuStats)>,
    t2: Seq<(u8, CpuStats)>,
)
    requires
        sorted_u8(t1),
        sorted_u8(t2),
        forall|k: u8| #![trigger lookup_u8(t1, k)]
            lookup_u8(t1, k) == cpu_value(line_split(body), k),
        forall|k: u8| #![trigger lookup_u8(t2, k)]
            lookup_u8(t2, k) == cpu_value(line_split(body), k),
    ensures
        t1 == t2,
        cpu_samples(t1) == cpu_samples(t2),
{
    assert forall|k: u8| #![trigger lookup_u8(t1, k)] lookup_u8(t1, k) == lookup_u8(t2, k) by {
        assert(lookup_u8(t1, k) == cpu_value(line_split(body), k));
        assert(lookup_u8(t2, k) == cpu_value(line_split(body), k));
    }
    crate::table::lemma_sorted_u8_lookup_determines(t1, t2);
    assert(t1 =~= t2);
}

} // verus!

