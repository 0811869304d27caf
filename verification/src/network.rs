//! Network-interface family: parses `/proc/net/dev`-style lines of sixteen
//! counters per device and projects receive/transmit byte counters,
//! suppressing a direction's sample when that direction's counter is zero.

use vstd::prelude::*;

use crate::error::ParseError;
use crate::prometheus::{
    metric_model, metrics_model, sample_model, samples_model, PromLabel, PromMetric,
    PromMetricType, PromSample, SampleModel,
};
use crate::table::{lookup, sorted_keys, upsert};
use crate::text::{
    chars_of, digit_run_end, digit_run_end_at, digits_val, line_split, split_lines,
    string_of_range, views_of,
};
use crate::transport::TomatoClientInternal;
use crate::value::MetricValue;

verus! {

#[derive(Debug, Clone, PartialEq, Eq)]
pub struct NetworkClient {
    pub client: TomatoClientInternal,
}

/// One interface's sixteen counters, in `/proc/net/dev` column order.
#[derive(Debug, Clone, PartialEq, Eq)]
pub struct NetworkInterface {
    pub name: String,
    pub rx_bytes: u64,
    pub rx_packets: u64,
    pub rx_errs: u64,
    pub rx_drop: u64,
    pub rx_fifo: u64,
    pub rx_frame: u64,
    pub rx_compressed: u64,
    pub rx_multicast: u64,
    pub tx_bytes: u64,
    pub tx_packets: u64,
    pub tx_errs: u64,
    pub tx_drop: u64,
    pub tx_fifo: u64,
    pub tx_colls: u64,
    pub tx_carrier: u64,
    pub tx_compressed: u64,
}

pub open spec fn iface_vals(f: NetworkInterface) -> Seq<u64> {
    seq![
        f.rx_bytes,
        f.rx_packets,
        f.rx_errs,
        f.rx_drop,
        f.rx_fifo,
        f.rx_frame,
        f.rx_compressed,
        f.rx_multicast,
        f.tx_bytes,
        f.tx_packets,
        f.tx_errs,
        f.tx_drop,
        f.tx_fifo,
        f.tx_colls,
        f.tx_carrier,
        f.tx_compressed,
    ]
}

pub open spec fn vals_to_nat(v: Seq<u64>) -> Seq<nat> {
    v.map(|i: int, x: u64| x as nat)
}

pub open spec fn is_dev_char(c: char) -> bool {
    ('a' <= c && c <= 'z') || ('0' <= c && c <= '9')
}

/// First position at or after `i` not holding a device-name character.
pub open spec fn dev_run_end(s: Seq<char>, i: nat) -> nat
    decreases s.len() - i,
{
    if i >= s.len() {
        s.len()
    } else if !is_dev_char(s[i as int]) {
        i
    } else {
        dev_run_end(s, i + 1)
    }
}

/// First position at or after `i` not holding a plain space.
pub open spec fn blank_run_end(s: Seq<char>, i: nat) -> nat
    decreases s.len() - i,
{
    if i >= s.len() {
        s.len()
    } else if s[i as int] != ' ' {
        i
    } else {
        blank_run_end(s, i + 1)
    }
}

/// `cnt` decimal counters from position `i`, separated by spaces; a
/// separator is required before each counter except the first.
pub open spec fn counters_at(line: Seq<char>, i: nat, cnt: nat, first: bool) -> Option<Seq<nat>>
    decreases cnt,
{
    if cnt == 0 {
        Option::Some(Seq::empty())
    } else {
        let b = blank_run_end(line, i);
        if !first && b == i {
            Option::None
        } else {
            let e = digit_run_end(line, b);
            if e == b {
                Option::None
            } else {
                match counters_at(line, e, (cnt - 1) as nat, false) {
                    Option::None => Option::None,
                    Option::Some(rest) => Option::Some(
                        seq![digits_val(line.subrange(b as int, e as int))] + rest,
                    ),
                }
            }
        }
    }
}

/// One device line: optional leading spaces, a `[a-z0-9]+` name, a colon,
/// and sixteen counters.  Lines of any other shape carry no device.
pub open spec fn net_shape(line: Seq<char>) -> Option<(Seq<char>, Seq<nat>)> {
    let a = blank_run_end(line, 0);
    let n = dev_run_end(line, a);
    if n == a || n >= line.len() || line[n as int] != ':' {
        Option::None
    } else {
        match counters_at(line, n + 1, 16, true) {
            Option::None => Option::None,
            Option::Some(vals) => Option::Some((line.subrange(a as int, n as int), vals)),
        }
    }
}

/// The counters of the last device line naming `k`, if any.
pub open spec fn net_value(ls: Seq<Seq<char>>, k: Seq<char>) -> Option<Seq<nat>>
    decreases ls.len(),
{
    if ls.len() == 0 {
        Option::None
    } else {
        let rest = net_value(ls.drop_last(), k);
        match net_shape(ls.last()) {
            Option::Some(p) => if p.0 == k {
                Option::Some(p.1)
            } else {
                rest
            },
            Option::None => rest,
        }
    }
}

pub open spec fn net_matched(ls: Seq<Seq<char>>) -> bool {
    exists|i: int| 0 <= i < ls.len() && (#[trigger] net_shape(ls[i])) is Some
}

/// Whether a counter list holds a value that does not fit in a `u64`.
pub open spec fn counters_overflow(o: Option<Seq<nat>>) -> bool {
    match o {
        Option::Some(vs) => exists|m: int| 0 <= m < vs.len() && (#[trigger] vs[m]) > u64::MAX,
        Option::None => false,
    }
}

/// Whether a device line's counters hold a value that does not fit.
pub open spec fn shape_overflows(o: Option<(Seq<char>, Seq<nat>)>) -> bool {
    match o {
        Option::Some(p) => exists|m: int| 0 <= m < p.1.len() && (#[trigger] p.1[m]) > u64::MAX,
        Option::None => false,
    }
}

pub proof fn lemma_counters_overflow_intro(o: Option<Seq<nat>>, vs: Seq<nat>, m: int)
    requires
        o == Option::Some(vs),
        0 <= m < vs.len(),
        vs[m] > u64::MAX,
    ensures
        counters_overflow(o),
{
    match o {
        Option::Some(vs2) => {
            assert(vs2 == vs);
            assert(0 <= m < vs2.len() && vs2[m] > u64::MAX);
        },
        Option::None => {},
    }
}

pub proof fn lemma_shape_overflows_intro(o: Option<(Seq<char>, Seq<nat>)>, p: (Seq<char>, Seq<nat>), m: int)
    requires
        o == Option::Some(p),
        0 <= m < p.1.len(),
        p.1[m] > u64::MAX,
    ensures
        shape_overflows(o),
{
    match o {
        Option::Some(p2) => {
            assert(p2 == p);
            assert(0 <= m < p2.1.len() && p2.1[m] > u64::MAX);
        },
        Option::None => {},
    }
}

/// Whether some device line holds a counter that does not fit in a `u64`.
pub open spec fn net_overflow(ls: Seq<Seq<char>>) -> bool {
    exists|i: int| 0 <= i < ls.len() && shape_overflows(#[trigger] net_shape(ls[i]))
}

fn dev_run_end_at(v: &Vec<char>, i: usize) -> (j: usize)
    requires
        i <= v.len(),
    ensures
        j == dev_run_end(v@, i as nat),
        i <= j <= v.len(),
{
    let mut j = i;
    while j < v.len() && (('a' <= v[j] && v[j] <= 'z') || ('0' <= v[j] && v[j] <= '9'))
        invariant
            i <= j <= v.len(),
            dev_run_end(v@, i as nat) == dev_run_end(v@, j as nat),
        decreases v.len() - j,
    {
        j += 1;
    }
    j
}

fn blank_run_end_at(v: &Vec<char>, i: usize) -> (j: usize)
    requires
        i <= v.len(),
    ensures
        j == blank_run_end(v@, i as nat),
        i <= j <= v.len(),
{
    let mut j = i;
    while j < v.len() && v[j] == ' '
        invariant
            i <= j <= v.len(),
            blank_run_end(v@, i as nat) == blank_run_end(v@, j as nat),
        decreases v.len() - j,
    {
        j += 1;
    }
    j
}

/// Reads `cnt` counters; `Err` when the shape is there but a counter
/// exceeds `u64`.
#[verifier::rlimit(50)]
fn counters_exec(line: &Vec<char>, i: usize, cnt: u8, first: bool) -> (r: Result<
    Option<Vec<u64>>,
    ParseError,
>)
    requires
        i <= line.len(),
    ensures
        match r {
            Result::Ok(Option::Some(vals)) => counters_at(line@, i as nat, cnt as nat, first)
                == Option::Some(vals_to_nat(vals@)) && vals@.len() == cnt,
            Result::Ok(Option::None) => counters_at(line@, i as nat, cnt as nat, first) is None,
            Result::Err(_) => counters_overflow(counters_at(line@, i as nat, cnt as nat, first)),
        },
    decreases cnt,
{
    if cnt == 0 {
        let vals: Vec<u64> = Vec::new();
        proof {
            assert(vals_to_nat(vals@) =~= Seq::<nat>::empty());
        }
        return Result::Ok(Option::Some(vals));
    }
    let b = blank_run_end_at(line, i);
    if !first && b == i {
        return Result::Ok(Option::None);
    }
    let e = digit_run_end_at(line, b);
    if e == b {
        return Result::Ok(Option::None);
    }
    let here = crate::text::parse_u64_digits(line, b, e);
    match counters_exec(line, e, cnt - 1, false) {
        Result::Ok(Option::Some(rest)) => {
            match here {
                Option::Some(n) => {
                    let mut vals: Vec<u64> = Vec::new();
                    vals.push(n);
                    let mut m: usize = 0;
                    while m < rest.len()
                        invariant
                            m <= rest.len(),
                            vals@ == seq![n] + rest@.take(m as int),
                        decreases rest.len() - m,
                    {
                        vals.push(rest[m]);
                        proof {
                            assert(vals@ =~= seq![n] + rest@.take(m + 1));
                        }
                        m += 1;
                    }
                    proof {
                        assert(rest@.take(rest@.len() as int) =~= rest@);
                        assert(vals@ =~= seq![n] + rest@);
                        assert(vals_to_nat(vals@) =~= seq![digits_val(
                            line@.subrange(b as int, e as int),
                        )] + vals_to_nat(rest@));
                        assert(counters_at(line@, i as nat, cnt as nat, first) == Option::Some(
                            vals_to_nat(vals@),
                        ));
                    }
                    Result::Ok(Option::Some(vals))
                },
                Option::None => {
                    proof {
                        let vs = seq![digits_val(line@.subrange(b as int, e as int))]
                            + vals_to_nat(rest@);
                        assert(counters_at(line@, i as nat, cnt as nat, first) == Option::Some(
                            vs,
                        ));
                        assert(vs[0] > u64::MAX);
                        lemma_counters_overflow_intro(
                            counters_at(line@, i as nat, cnt as nat, first),
                            vs,
                            0,
                        );
                    }
                    Result::Err(ParseError)
                },
            }
        },
        Result::Ok(Option::None) => Result::Ok(Option::None),
        Result::Err(_) => {
            proof {
                match counters_at(line@, e as nat, (cnt - 1) as nat, false) {
                    Option::Some(rest_s) => {
                        let m = choose|m: int|
                            0 <= m < rest_s.len() && (#[trigger] rest_s[m]) > u64::MAX;
                        let vs = seq![digits_val(line@.subrange(b as int, e as int))] + rest_s;
                        assert(counters_at(line@, i as nat, cnt as nat, first) == Option::Some(
                            vs,
                        ));
                        assert(vs[m + 1] > u64::MAX);
                        lemma_counters_overflow_intro(
                            counters_at(line@, i as nat, cnt as nat, first),
                            vs,
                            m + 1,
                        );
                    },
                    Option::None => {},
                }
            }
            Result::Err(ParseError)
        },
    }
}

/// Parses one line; `Err` when a device line's counter exceeds `u64`.
fn parse_net_line(line: &Vec<char>) -> (r: Result<Option<(String, Vec<u64>)>, ParseError>)
    ensures
        match r {
            Result::Ok(Option::Some(p)) => net_shape(line@) == Option::Some(
                (p.0@, vals_to_nat(p.1@)),
            ) && p.1@.len() == 16,
            Result::Ok(Option::None) => net_shape(line@) is None,
            Result::Err(_) => shape_overflows(net_shape(line@)),
        },
{
    let a = blank_run_end_at(line, 0);
    let n = dev_run_end_at(line, a);
    if n == a || n >= line.len() || line[n] != ':' {
        return Result::Ok(Option::None);
    }
    match counters_exec(line, n + 1, 16, true) {
        Result::Ok(Option::Some(vals)) => {
            let name = string_of_range(line, a, n);
            proof {
                assert(net_shape(line@) == Option::Some(
                    (line@.subrange(a as int, n as int), vals_to_nat(vals@)),
                ));
            }
            Result::Ok(Option::Some((name, vals)))
        },
        Result::Ok(Option::None) => Result::Ok(Option::None),
        Result::Err(_) => {
            proof {
                match counters_at(line@, (n + 1) as nat, 16, true) {
                    Option::Some(vs) => {
                        assert(net_shape(line@) == Option::Some(
                            (line@.subrange(a as int, n as int), vs),
                        ));
                        let m = choose|m: int| 0 <= m < vs.len() && (#[trigger] vs[m]) > u64::MAX;
                        assert(0 <= m < vs.len() && vs[m] > u64::MAX);
                        lemma_shape_overflows_intro(
                            net_shape(line@),
                            (line@.subrange(a as int, n as int), vs),
                            m,
                        );
                    },
                    Option::None => {},
                }
            }
            Result::Err(ParseError)
        },
    }
}

impl NetworkClient {
    pub fn new(client: TomatoClientInternal) -> (r: NetworkClient)
        ensures
            r.client == client,
    {
        NetworkClient { client }
    }

    /// Parses the whole body into a sorted device table, later lines
    /// overriding earlier ones.  Fails exactly when no line has the device
    /// shape or some device counter does not fit in a `u64`.
    pub fn parse_body(body: String) -> (r: Result<Vec<(String, NetworkInterface)>, ParseError>)
        ensures
            match r {
                Result::Ok(t) => {
                    &&& sorted_keys(t@)
                    &&& net_matched(line_split(body@))
                    &&& !net_overflow(line_split(body@))
                    &&& forall|k: Seq<char>|
                        match #[trigger] lookup(t@, k) {
                            Option::Some(f) => net_value(line_split(body@), k) == Option::Some(
                                vals_to_nat(iface_vals(f)),
                            ) && f.name@ == k,
                            Option::None => net_value(line_split(body@), k) is None,
                        }
                },
                Result::Err(_) => !net_matched(line_split(body@)) || net_overflow(
                    line_split(body@),
                ),
            },
    {
        let chars = chars_of(body.as_str());
        let lines = split_lines(&chars);
        let ghost ls = line_split(body@);
        let mut t: Vec<(String, NetworkInterface)> = Vec::new();
        let mut matched = false;
        let mut i: usize = 0;
        proof {
            assert(ls.take(0) =~= Seq::<Seq<char>>::empty());
        }
        while i < lines.len()
            invariant
                i <= lines.len(),
                views_of(lines@) == ls,
                ls == line_split(body@),
                sorted_keys(t@),
                matched == net_matched(ls.take(i as int)),
                !net_overflow(ls.take(i as int)),
                forall|k: Seq<char>|
                    match #[trigger] lookup(t@, k) {
                        Option::Some(f) => net_value(ls.take(i as int), k) == Option::Some(
                            vals_to_nat(iface_vals(f)),
                        ) && f.name@ == k,
                        Option::None => net_value(ls.take(i as int), k) is None,
                    },
            decreases lines.len() - i,
        {
            let ghost pre = ls.take(i as int);
            let ghost cur = ls.take(i + 1);
            proof {
                assert(cur.drop_last() =~= pre);
                assert(cur.last() == ls[i as int]);
                assert(lines@[i as int]@ == ls[i as int]);
            }
            match parse_net_line(&lines[i]) {
                Result::Ok(Option::Some(p)) => {
                    let (name, vals) = p;
                    let ghost nm = name@;
                    let f = NetworkInterface {
                        name: name.clone(),
                        rx_bytes: vals[0],
                        rx_packets: vals[1],
                        rx_errs: vals[2],
                        rx_drop: vals[3],
                        rx_fifo: vals[4],
                        rx_frame: vals[5],
                        rx_compressed: vals[6],
                        rx_multicast: vals[7],
                        tx_bytes: vals[8],
                        tx_packets: vals[9],
                        tx_errs: vals[10],
                        tx_drop: vals[11],
                        tx_fifo: vals[12],
                        tx_colls: vals[13],
                        tx_carrier: vals[14],
                        tx_compressed: vals[15],
                    };
                    proof {
                        assert(iface_vals(f) =~= vals@);
                    }
                    upsert(&mut t, name, f);
                    matched = true;
                    proof {
                        assert(net_matched(cur)) by {
                            assert(0 <= i < cur.len() && net_shape(cur[i as int]) is Some);
                        }
                        assert(!net_overflow(cur)) by {
                            assert forall|j: int|
                                0 <= j < cur.len() implies !shape_overflows(
                                #[trigger] net_shape(cur[j]),
                            ) by {
                                assert(cur[j] == ls[j]);
                                if j < i {
                                    assert(pre[j] == ls[j]);
                                    assert(!shape_overflows(net_shape(pre[j])));
                                } else {
                                    assert(net_shape(cur[j]) == Option::Some(
                                        (nm, vals_to_nat(vals@)),
                                    ));
                                    assert forall|m: int|
                                        0 <= m < vals_to_nat(vals@).len() implies (
                                    #[trigger] vals_to_nat(vals@)[m]) <= u64::MAX by {
                                        assert(vals_to_nat(vals@)[m] == vals@[m] as nat);
                                    }
                                }
                            }
                        }
                        assert forall|k: Seq<char>|
                            match #[trigger] lookup(t@, k) {
                                Option::Some(g) => net_value(cur, k) == Option::Some(
                                    vals_to_nat(iface_vals(g)),
                                ) && g.name@ == k,
                                Option::None => net_value(cur, k) is None,
                            } by {
                            if k == nm {
                                assert(lookup(t@, k) == Option::Some(f));
                                assert(net_value(cur, k) == Option::Some(vals_to_nat(vals@)));
                            } else {
                                assert(net_value(cur, k) == net_value(pre, k));
                            }
                        }
                    }
                },
                Result::Ok(Option::None) => {
                    proof {
                        assert(net_matched(cur) == net_matched(pre)) by {
                            if net_matched(pre) {
                                let j = choose|j: int|
                                    0 <= j < pre.len() && (#[trigger] net_shape(pre[j])) is Some;
                                assert(cur[j] == pre[j]);
                                assert(net_shape(cur[j]) is Some);
                            }
                            if net_matched(cur) {
                                let j = choose|j: int|
                                    0 <= j < cur.len() && (#[trigger] net_shape(cur[j])) is Some;
                                if j < i {
                                    assert(pre[j] == cur[j]);
                                    assert(net_shape(pre[j]) is Some);
                                } else {
                                    assert(cur[j] == ls[i as int]);
                                }
                            }
                        }
                        assert(!net_overflow(cur)) by {
                            assert forall|j: int|
                                0 <= j < cur.len() implies !shape_overflows(
                                #[trigger] net_shape(cur[j]),
                            ) by {
                                assert(cur[j] == ls[j]);
                                if j < i {
                                    assert(pre[j] == ls[j]);
                                    assert(!shape_overflows(net_shape(pre[j])));
                                }
                            }
                        }
                        assert forall|k: Seq<char>|
                            match #[trigger] lookup(t@, k) {
                                Option::Some(g) => net_value(cur, k) == Option::Some(
                                    vals_to_nat(iface_vals(g)),
                                ) && g.name@ == k,
                                Option::None => net_value(cur, k) is None,
                            } by {
                            assert(net_value(cur, k) == net_value(pre, k));
                        }
                    }
                },
                Result::Err(_) => {
                    proof {
                        assert(net_overflow(ls)) by {
                            assert(0 <= i < ls.len() && shape_overflows(net_shape(ls[i as int])));
                        }
                    }
                    return Result::Err(ParseError);
                },
            }
            i += 1;
        }
        proof {
            assert(ls.take(lines@.len() as int) =~= ls);
        }
        if !matched {
            return Result::Err(ParseError);
        }
        Result::Ok(t)
    }

    pub fn get_name(&self) -> (r: String)
        ensures
            r@ == "network"@,
    {
        String::from_str("network")
    }
}

/// The receive-byte samples: one per interface whose receive counter is
/// nonzero, in table order.
pub open spec fn rx_samples(t: Seq<(String, NetworkInterface)>) -> Seq<SampleModel>
    decreases t.len(),
{
    if t.len() == 0 {
        Seq::empty()
    } else {
        rx_samples(t.drop_last()) + if t.last().1.rx_bytes > 0 {
            seq![
                (
                    seq![("device"@, t.last().0@)],
                    MetricValue { units: t.last().1.rx_bytes, frac: 0, scale: 0 },
                    Option::<u64>::None,
                ),
            ]
        } else {
            Seq::empty()
        }
    }
}

/// The transmit-byte samples, likewise.
pub open spec fn tx_samples(t: Seq<(String, NetworkInterface)>) -> Seq<SampleModel>
    decreases t.len(),
{
    if t.len() == 0 {
        Seq::empty()
    } else {
        tx_samples(t.drop_last()) + if t.last().1.tx_bytes > 0 {
            seq![
                (
                    seq![("device"@, t.last().0@)],
                    MetricValue { units: t.last().1.tx_bytes, frac: 0, scale: 0 },
                    Option::<u64>::None,
                ),
            ]
        } else {
            Seq::empty()
        }
    }
}

fn device_sample(name: &String, value: u64) -> (s: PromSample)
    ensures
        sample_model(s) == (
            seq![("device"@, name@)],
            MetricValue { units: value, frac: 0, scale: 0 },
            Option::<u64>::None,
        ),
{
    let mut labels: Vec<PromLabel> = Vec::new();
    labels.push(PromLabel::new("device", name.clone()));
    let s = PromSample::new(labels, MetricValue::from_int(value), Option::None);
    proof {
        assert(sample_model(s) =~~= (
            seq![("device"@, name@)],
            MetricValue { units: value, frac: 0, scale: 0 },
            Option::<u64>::None,
        ));
    }
    s
}

impl NetworkClient {
    /// Projects the device table to the receive and transmit counters, in
    /// table order, skipping a direction whose byte counter is zero.
    pub fn raw_to_prom(raw_metrics: Vec<(String, NetworkInterface)>) -> (r: Vec<PromMetric>)
        ensures
            metrics_model(r@) == seq![
                (
                    "node_network_receive_bytes_total"@,
                    "Network device statistic receive_bytes"@,
                    PromMetricType::Counter,
                    rx_samples(raw_metrics@),
                ),
                (
                    "node_network_transmit_bytes_total"@,
                    "Network device statistic transmit_bytes"@,
                    PromMetricType::Counter,
                    tx_samples(raw_metrics@),
                ),
            ],
    {
        let mut rx: Vec<PromSample> = Vec::new();
        let mut i: usize = 0;
        proof {
            assert(raw_metrics@.take(0) =~= Seq::<(String, NetworkInterface)>::empty());
            assert(samples_model(rx@) =~= rx_samples(raw_metrics@.take(0)));
        }
        while i < raw_metrics.len()
            invariant
                i <= raw_metrics.len(),
                samples_model(rx@) == rx_samples(raw_metrics@.take(i as int)),
            decreases raw_metrics.len() - i,
        {
            let ghost base = samples_model(rx@);
            if raw_metrics[i].1.rx_bytes > 0 {
                let s = device_sample(&raw_metrics[i].0, raw_metrics[i].1.rx_bytes);
                rx.push(s);
            }
            proof {
                let part = raw_metrics@.take(i + 1);
                assert(part.drop_last() =~= raw_metrics@.take(i as int));
                assert(part.last() == raw_metrics@[i as int]);
                assert(samples_model(rx@) =~= rx_samples(part));
            }
            i += 1;
        }
        let mut tx: Vec<PromSample> = Vec::new();
        let mut j: usize = 0;
        proof {
            assert(raw_metrics@.take(raw_metrics@.len() as int) =~= raw_metrics@);
            assert(samples_model(tx@) =~= tx_samples(raw_metrics@.take(0)));
        }
        while j < raw_metrics.len()
            invariant
                j <= raw_metrics.len(),
                samples_model(rx@) == rx_samples(raw_metrics@.take(raw_metrics@.len() as int)),
                samples_model(tx@) == tx_samples(raw_metrics@.take(j as int)),
            decreases raw_metrics.len() - j,
        {
            let ghost base = samples_model(tx@);
            if raw_metrics[j].1.tx_bytes > 0 {
                let s = device_sample(&raw_metrics[j].0, raw_metrics[j].1.tx_bytes);
                tx.push(s);
            }
            proof {
                let part = raw_metrics@.take(j + 1);
                assert(part.drop_last() =~= raw_metrics@.take(j as int));
                assert(part.last() == raw_metrics@[j as int]);
                assert(samples_model(tx@) =~= tx_samples(part));
            }
            j += 1;
        }
        let m_rx = PromMetric::new(
            "node_network_receive_bytes_total",
            "Network device statistic receive_bytes",
            PromMetricType::Counter,
            rx,
        );
        let m_tx = PromMetric::new(
            "node_network_transmit_bytes_total",
            "Network device statistic transmit_bytes",
            PromMetricType::Counter,
            tx,
        );
        let mut r: Vec<PromMetric> = Vec::new();
        r.push(m_rx);
        r.push(m_tx);
        proof {
            assert(raw_metrics@.take(raw_metrics@.len() as int) =~= raw_metrics@);
            assert(metrics_model(r@) =~= seq![metric_model(r@[0]), metric_model(r@[1])]);
            assert(metric_model(r@[0]) =~~= (
                "node_network_receive_bytes_total"@,
                "Network device statistic receive_bytes"@,
                PromMetricType::Counter,
                rx_samples(raw_metrics@),
            ));
            assert(metric_model(r@[1]) =~~= (
                "node_network_transmit_bytes_total"@,
                "Network device statistic transmit_bytes"@,
                PromMetricType::Counter,
                tx_samples(raw_metrics@),
            ));
            assert(metrics_model(r@) =~= seq![
                (
                    "node_network_receive_bytes_total"@,
                    "Network device statistic receive_bytes"@,
                    PromMetricType::Counter,
                    rx_samples(raw_metrics@),
                ),
                (
                    "node_network_transmit_bytes_total"@,
                    "Network device statistic transmit_bytes"@,
                    PromMetricType::Counter,
                    tx_samples(raw_metrics@),
                ),
            ]);
        }
        r
    }
}


proof fn lemma_net_samples_congruent(
    t1: Seq<(String, NetworkInterface)>,
    t2: Seq<(String, NetworkInterface)>,
)
    requires
        t1.len() == t2.len(),
        forall|i: int| 0 <= i < t1.len() ==> (#[trigger] t1[i].0@) == t2[i].0@ && t1[i].1
            == t2[i].1,
    ensures
        rx_samples(t1) == rx_samples(t2),
        tx_samples(t1) == tx_samples(t2),
    decreases t1.len(),
{
    if t1.len() > 0 {
        assert forall|i: int|
            0 <= i < t1.drop_last().len() implies (#[trigger] t1.drop_last()[i].0@)
            == t2.drop_last()[i].0@ && t1.drop_last()[i].1 == t2.drop_last()[i].1 by {
            assert(t1.drop_last()[i] == t1[i] && t2.drop_last()[i] == t2[i]);
        }
        lemma_net_samples_congruent(t1.drop_last(), t2.drop_last());
        assert(t1.last().0@ == t2.last().0@ && t1.last().1 == t2.last().1);
    }
}

/// Sorted device tables holding the same interfaces project to the very
/// same receive and transmit samples, in lexicographic device order.
pub proof fn lemma_network_projection_canonical(
    t1: Seq<(String, NetworkInterface)>,
    t2: Seq<(String, NetworkInterface)>,
)
    requires
        sorted_keys(t1),
        sorted_keys(t2),
        forall|k: Seq<char>| #![trigger lookup(t1, k)] lookup(t1, k) == lookup(t2, k),
    ensures
        rx_samples(t1) == rx_samples(t2),
        tx_samples(t1) == tx_samples(t2),
{
    crate::table::lemma_sorted_lookup_determines(t1, t2);
    assert forall|i: int|
        0 <= i < t1.len() implies (#[trigger] t1[i].0@) == t2[i].0@ && t1[i].1 == t2[i].1 by {
        assert(t1[i].0@ == t2[i].0@ && t1[i].1 == t2[i].1);
    }
    lemma_net_samples_congruent(t1, t2);
}


/// Every receive sample's device label is a key that precedes `kb`,
/// provided every key of the table does.
proof fn lemma_rx_labels_bounded(t: Seq<(String, NetworkInterface)>, kb: Seq<char>)
    requires
        forall|i: int| 0 <= i < t.len() ==> crate::table::lex_lt((#[trigger] t[i]).0@, kb),
    ensures
        forall|m: int|
            0 <= m < rx_samples(t).len() ==> crate::table::lex_lt(
                (#[trigger] rx_samples(t)[m]).0[0].1,
                kb,
            ),
    decreases t.len(),
{
    if t.len() > 0 {
        assert(forall|i: int| 0 <= i < t.drop_last().len() ==> (#[trigger] t.drop_last()[i])
            == t[i]);
        lemma_rx_labels_bounded(t.drop_last(), kb);
        let a = rx_samples(t.drop_last());
        assert forall|m: int|
            0 <= m < rx_samples(t).len() implies crate::table::lex_lt(
            (#[trigger] rx_samples(t)[m]).0[0].1,
            kb,
        ) by {
            if m < a.len() {
                assert(rx_samples(t)[m] == a[m]);
            } else {
                assert(rx_samples(t)[m].0[0].1 == t.last().0@);
                assert(crate::table::lex_lt(t[t.len() - 1].0@, kb));
            }
        }
    }
}

/// The receive samples of a sorted table walk the devices in strictly
/// increasing lexicographic name order, though suppressed zero-counter
/// devices are absent.
pub proof fn lemma_rx_samples_in_key_order(t: Seq<(String, NetworkInterface)>)
    requires
        sorted_keys(t),
    ensures
        forall|m1: int, m2: int|
            0 <= m1 < m2 < rx_samples(t).len() ==> crate::table::lex_lt(
                (#[trigger] rx_samples(t)[m1]).0[0].1,
                (#[trigger] rx_samples(t)[m2]).0[0].1,
            ),
    decreases t.len(),
{
    if t.len() > 0 {
        assert(forall|i: int| 0 <= i < t.drop_last().len() ==> (#[trigger] t.drop_last()[i])
            == t[i]);
        assert(sorted_keys(t.drop_last()));
        lemma_rx_samples_in_key_order(t.drop_last());
        assert forall|i: int|
            0 <= i < t.drop_last().len() implies crate::table::lex_lt(
            (#[trigger] t.drop_last()[i]).0@,
            t.last().0@,
        ) by {
            assert(crate::table::lex_lt(t[i].0@, t[t.len() - 1].0@));
        }
        lemma_rx_labels_bounded(t.drop_last(), t.last().0@);
        let a = rx_samples(t.drop_last());
        assert forall|m1: int, m2: int|
            0 <= m1 < m2 < rx_samples(t).len() implies crate::table::lex_lt(
            (#[trigger] rx_samples(t)[m1]).0[0].1,
            (#[trigger] rx_samples(t)[m2]).0[0].1,
        ) by {
            if m2 < a.len() {
                assert(rx_samples(t)[m1] == a[m1] && rx_samples(t)[m2] == a[m2]);
            } else {
                assert(rx_samples(t)[m1] == a[m1]);
                assert(rx_samples(t)[m2].0[0].1 == t.last().0@);
            }
        }
    }
}

} // verus!

