//! The metric data model and the text exposition serializer.
//!
//! Every `to_prom` renderer has an exact contract: the returned string's
//! character sequence equals the spec-level rendering of the value.

use vstd::prelude::*;

use crate::value::{dec_digits, MetricValue};

verus! {

#[derive(Debug, Clone, PartialEq, Eq)]
pub struct PromLabel {
    pub name: String,
    pub value: String,
}

#[derive(Debug, Clone, Copy, PartialEq, Eq, Structural)]
pub enum PromMetricType {
    Counter,
    Gauge,
    Histogram,
    Summary,
    Untyped,
}

#[derive(Debug, Clone, PartialEq, Eq)]
pub struct PromSample {
    pub labels: Vec<PromLabel>,
    pub value: MetricValue,
    pub timestamp: Option<u64>,
}

#[derive(Debug, Clone, PartialEq, Eq)]
pub struct PromMetric {
    pub name: String,
    pub help: String,
    pub typ: PromMetricType,
    pub samples: Vec<PromSample>,
}

#[derive(Debug, Clone, PartialEq, Eq)]
pub struct PromResponse {
    pub metrics: Vec<PromMetric>,
}

/// The mathematical shape of a sample: label pairs, value, timestamp.
pub type SampleModel = (Seq<(Seq<char>, Seq<char>)>, MetricValue, Option<u64>);

/// The mathematical shape of a metric: name, help, type, samples.
pub type MetricModel = (Seq<char>, Seq<char>, PromMetricType, Seq<SampleModel>);

pub open spec fn sample_model(s: PromSample) -> SampleModel {
    (s.labels@.map(|i: int, l: PromLabel| (l.name@, l.value@)), s.value, s.timestamp)
}

pub open spec fn samples_model(v: Seq<PromSample>) -> Seq<SampleModel> {
    v.map(|i: int, s: PromSample| sample_model(s))
}

pub open spec fn metric_model(m: PromMetric) -> MetricModel {
    (m.name@, m.help@, m.typ, samples_model(m.samples@))
}

pub open spec fn metrics_model(ms: Seq<PromMetric>) -> Seq<MetricModel> {
    ms.map(|i: int, m: PromMetric| metric_model(m))
}

/// A gauge holding one unlabelled sample without timestamp.
pub open spec fn gauge_model(name: Seq<char>, help: Seq<char>, value: MetricValue) -> MetricModel {
    (
        name,
        help,
        PromMetricType::Gauge,
        seq![(Seq::<(Seq<char>, Seq<char>)>::empty(), value, Option::<u64>::None)],
    )
}

/// `parts` joined by `sep`, with no leading or trailing separator.
pub open spec fn joined(parts: Seq<Seq<char>>, sep: Seq<char>) -> Seq<char>
    decreases parts.len(),
{
    if parts.len() == 0 {
        Seq::empty()
    } else if parts.len() == 1 {
        parts[0]
    } else {
        joined(parts.drop_last(), sep) + sep + parts.last()
    }
}

pub proof fn lemma_joined_snoc(parts: Seq<Seq<char>>, sep: Seq<char>, i: int)
    requires
        0 <= i < parts.len(),
    ensures
        joined(parts.take(i + 1), sep) == if i == 0 {
            parts[0]
        } else {
            joined(parts.take(i), sep) + sep + parts[i]
        },
{
    assert(parts.take(i + 1).drop_last() =~= parts.take(i));
    assert(parts.take(i + 1).last() == parts[i]);
}

/// `name="value"`
pub open spec fn label_rendered(l: PromLabel) -> Seq<char> {
    l.name@ + "=\""@ + l.value@ + "\""@
}

pub open spec fn labels_rendered(labels: Seq<PromLabel>) -> Seq<Seq<char>> {
    labels.map(|i: int, l: PromLabel| label_rendered(l))
}

/// ` <timestamp>`, or nothing when there is no timestamp.
pub open spec fn ts_rendered(t: Option<u64>) -> Seq<char> {
    match t {
        Option::None => Seq::empty(),
        Option::Some(ts) => " "@ + dec_digits(ts as nat),
    }
}

/// `name{label,...} value[ timestamp]`
pub open spec fn sample_rendered(s: PromSample, name: Seq<char>) -> Seq<char> {
    name + "{"@ + joined(labels_rendered(s.labels@), ","@) + "} "@ + s.value.rendered()
        + ts_rendered(s.timestamp)
}

pub open spec fn samples_rendered(samples: Seq<PromSample>, name: Seq<char>) -> Seq<Seq<char>> {
    samples.map(|i: int, s: PromSample| sample_rendered(s, name))
}

pub open spec fn type_rendered(t: PromMetricType) -> Seq<char> {
    match t {
        PromMetricType::Counter => "counter"@,
        PromMetricType::Gauge => "gauge"@,
        PromMetricType::Histogram => "histogram"@,
        PromMetricType::Summary => "summary"@,
        PromMetricType::Untyped => "untyped"@,
    }
}

/// `# HELP <name> <help>\n# TYPE <name> <type>\n` followed by the sample
/// lines joined by single newlines; no trailing newline after the samples.
pub open spec fn metric_rendered(m: PromMetric) -> Seq<char> {
    "# HELP "@ + m.name@ + " "@ + m.help@ + "\n# TYPE "@ + m.name@ + " "@ + type_rendered(m.typ)
        + "\n"@ + joined(samples_rendered(m.samples@, m.name@), "\n"@)
}

pub open spec fn metrics_rendered(ms: Seq<PromMetric>) -> Seq<Seq<char>> {
    ms.map(|i: int, m: PromMetric| metric_rendered(m))
}

/// The whole document: metric blocks joined by single newlines.
pub open spec fn response_rendered(r: PromResponse) -> Seq<char> {
    joined(metrics_rendered(r.metrics@), "\n"@)
}

impl PromLabel {
    pub fn new(name: &str, value: String) -> (r: PromLabel)
        ensures
            r.name@ == name@,
            r.value == value,
    {
        PromLabel { name: name.to_owned(), value }
    }

    pub fn to_prom(&self) -> (r: String)
        ensures
            r@ == label_rendered(*self),
    {
        let mut out = self.name.clone();
        out.append("=\"");
        out.append(self.value.as_str());
        out.append("\"");
        out
    }
}

impl PromSample {
    pub fn new(labels: Vec<PromLabel>, value: MetricValue, timestamp: Option<u64>) -> (r:
        PromSample)
        ensures
            r == (PromSample { labels, value, timestamp }),
    {
        PromSample { labels, value, timestamp }
    }

    pub fn to_prom(&self, name: String) -> (r: String)
        ensures
            r@ == sample_rendered(*self, name@),
    {
        let ghost name0 = name@;
        let mut out = name;
        out.append("{");
        let mut i: usize = 0;
        while i < self.labels.len()
            invariant
                i <= self.labels.len(),
                out@ == name0 + "{"@ + joined(labels_rendered(self.labels@).take(i as int), ","@),
            decreases self.labels.len() - i,
        {
            if i > 0 {
                out.append(",");
            }
            let ls = self.labels[i].to_prom();
            out.append(ls.as_str());
            proof {
                lemma_joined_snoc(labels_rendered(self.labels@), ","@, i as int);
                assert(out@ =~= name0 + "{"@ + joined(
                    labels_rendered(self.labels@).take(i + 1),
                    ","@,
                ));
            }
            i += 1;
        }
        proof {
            assert(labels_rendered(self.labels@).take(self.labels@.len() as int) =~= labels_rendered(
                self.labels@,
            ));
        }
        out.append("} ");
        let vs = self.value.to_prom();
        out.append(vs.as_str());
        match self.timestamp {
            Option::None => {},
            Option::Some(ts) => {
                out.append(" ");
                let ds = crate::value::dec_digit_chars(ts);
                crate::value::append_chars(&mut out, &ds);
            },
        }
        proof {
            assert(out@ =~= sample_rendered(*self, name0));
        }
        out
    }
}

/// Builds a gauge holding one unlabelled sample without timestamp.
pub fn gauge(name: &str, help: &str, value: MetricValue) -> (r: PromMetric)
    ensures
        metric_model(r) == gauge_model(name@, help@, value),
{
    let sample = PromSample::new(Vec::new(), value, Option::None);
    let mut samples: Vec<PromSample> = Vec::new();
    samples.push(sample);
    let m = PromMetric::new(name, help, PromMetricType::Gauge, samples);
    proof {
        assert(metric_model(m) =~~= gauge_model(name@, help@, value));
    }
    m
}

fn type_to_prom(t: &PromMetricType) -> (r: &'static str)
    ensures
        r@ == type_rendered(*t),
{
    match t {
        PromMetricType::Counter => "counter",
        PromMetricType::Gauge => "gauge",
        PromMetricType::Histogram => "histogram",
        PromMetricType::Summary => "summary",
        PromMetricType::Untyped => "untyped",
    }
}

impl PromMetric {
    pub fn new(name: &str, help: &str, typ: PromMetricType, samples: Vec<PromSample>) -> (r:
        PromMetric)
        ensures
            r.name@ == name@,
            r.help@ == help@,
            r.typ == typ,
            r.samples == samples,
    {
        PromMetric { name: name.to_owned(), help: help.to_owned(), typ, samples }
    }

    pub fn to_prom(&self) -> (r: String)
        ensures
            r@ == metric_rendered(*self),
    {
        let mut out = String::from_str("# HELP ");
        out.append(self.name.as_str());
        out.append(" ");
        out.append(self.help.as_str());
        out.append("\n# TYPE ");
        out.append(self.name.as_str());
        out.append(" ");
        out.append(type_to_prom(&self.typ));
        out.append("\n");
        let ghost header = out@;
        let mut i: usize = 0;
        while i < self.samples.len()
            invariant
                i <= self.samples.len(),
                out@ == header + joined(samples_rendered(self.samples@, self.name@).take(i as int), "\n"@),
            decreases self.samples.len() - i,
        {
            if i > 0 {
                out.append("\n");
            }
            let ss = self.samples[i].to_prom(self.name.clone());
            out.append(ss.as_str());
            proof {
                lemma_joined_snoc(samples_rendered(self.samples@, self.name@), "\n"@, i as int);
                assert(out@ =~= header + joined(
                    samples_rendered(self.samples@, self.name@).take(i + 1),
                    "\n"@,
                ));
            }
            i += 1;
        }
        proof {
            assert(samples_rendered(self.samples@, self.name@).take(self.samples@.len() as int)
                =~= samples_rendered(self.samples@, self.name@));
            assert(out@ =~= metric_rendered(*self));
        }
        out
    }
}

impl PromResponse {
    pub fn new(metrics: Vec<PromMetric>) -> (r: PromResponse)
        ensures
            r == (PromResponse { metrics }),
    {
        PromResponse { metrics }
    }

    pub fn to_prom(&self) -> (r: String)
        ensures
            r@ == response_rendered(*self),
    {
        let mut out = String::new();
        let mut i: usize = 0;
        while i < self.metrics.len()
            invariant
                i <= self.metrics.len(),
                out@ == joined(metrics_rendered(self.metrics@).take(i as int), "\n"@),
            decreases self.metrics.len() - i,
        {
            if i > 0 {
                out.append("\n");
            }
            let ms = self.metrics[i].to_prom();
            out.append(ms.as_str());
            proof {
                lemma_joined_snoc(metrics_rendered(self.metrics@), "\n"@, i as int);
                assert(out@ =~= joined(metrics_rendered(self.metrics@).take(i + 1), "\n"@));
            }
            i += 1;
        }
        proof {
            assert(metrics_rendered(self.metrics@).take(self.metrics@.len() as int)
                =~= metrics_rendered(self.metrics@));
        }
        out
    }
}


/// Samples with the same model render identically under any series name.
pub proof fn lemma_sample_rendered_determined(a: PromSample, b: PromSample, name: Seq<char>)
    requires
        sample_model(a) == sample_model(b),
    ensures
        sample_rendered(a, name) == sample_rendered(b, name),
{
    let ma = sample_model(a).0;
    let mb = sample_model(b).0;
    assert(ma == mb);
    assert(ma.len() == a.labels@.len() && mb.len() == b.labels@.len());
    assert forall|i: int|
        0 <= i < a.labels@.len() implies #[trigger] labels_rendered(a.labels@)[i]
        == labels_rendered(b.labels@)[i] by {
        assert(ma[i] == (a.labels@[i].name@, a.labels@[i].value@));
        assert(mb[i] == (b.labels@[i].name@, b.labels@[i].value@));
        assert(a.labels@[i].name@ == b.labels@[i].name@);
        assert(a.labels@[i].value@ == b.labels@[i].value@);
    }
    assert(labels_rendered(a.labels@) =~= labels_rendered(b.labels@));
}

/// Metrics with the same model render identically.
pub proof fn lemma_metric_rendered_determined(a: PromMetric, b: PromMetric)
    requires
        metric_model(a) == metric_model(b),
    ensures
        metric_rendered(a) == metric_rendered(b),
{
    let sa = samples_model(a.samples@);
    let sb = samples_model(b.samples@);
    assert(sa == sb);
    assert(sa.len() == a.samples@.len() && sb.len() == b.samples@.len());
    assert(a.name@ == b.name@);
    assert forall|i: int|
        0 <= i < a.samples@.len() implies #[trigger] samples_rendered(a.samples@, a.name@)[i]
        == samples_rendered(b.samples@, b.name@)[i] by {
        assert(sa[i] == sample_model(a.samples@[i]));
        assert(sb[i] == sample_model(b.samples@[i]));
        lemma_sample_rendered_determined(a.samples@[i], b.samples@[i], a.name@);
        assert(samples_rendered(a.samples@, a.name@)[i] == sample_rendered(
            a.samples@[i],
            a.name@,
        ));
        assert(samples_rendered(b.samples@, b.name@)[i] == sample_rendered(
            b.samples@[i],
            b.name@,
        ));
    }
    assert(samples_rendered(a.samples@, a.name@) =~= samples_rendered(b.samples@, b.name@));
}

/// Whole documents with the same model render identically, byte for byte.
pub proof fn lemma_response_rendered_determined(a: PromResponse, b: PromResponse)
    requires
        metrics_model(a.metrics@) == metrics_model(b.metrics@),
    ensures
        response_rendered(a) == response_rendered(b),
{
    let ma = metrics_model(a.metrics@);
    let mb = metrics_model(b.metrics@);
    assert(ma == mb);
    assert(ma.len() == a.metrics@.len() && mb.len() == b.metrics@.len());
    assert forall|i: int|
        0 <= i < a.metrics@.len() implies #[trigger] metrics_rendered(a.metrics@)[i]
        == metrics_rendered(b.metrics@)[i] by {
        assert(ma[i] == metric_model(a.metrics@[i]));
        assert(mb[i] == metric_model(b.metrics@[i]));
        lemma_metric_rendered_determined(a.metrics@[i], b.metrics@[i]);
        assert(metrics_rendered(a.metrics@)[i] == metric_rendered(a.metrics@[i]));
        assert(metrics_rendered(b.metrics@)[i] == metric_rendered(b.metrics@[i]));
    }
    assert(metrics_rendered(a.metrics@) =~= metrics_rendered(b.metrics@));
}


pub proof fn lemma_joined_cons(parts: Seq<Seq<char>>, sep: Seq<char>)
    requires
        parts.len() >= 2,
    ensures
        joined(parts, sep) == parts[0] + sep + joined(parts.drop_first(), sep),
    decreases parts.len(),
{
    if parts.len() == 2 {
        assert(parts.drop_last() =~= seq![parts[0]]);
        assert(parts.drop_first() =~= seq![parts[1]]);
        assert(joined(parts, sep) == joined(seq![parts[0]], sep) + sep + parts[1]);
        assert(joined(seq![parts[0]], sep) == parts[0]);
        assert(joined(seq![parts[1]], sep) == parts[1]);
        assert(joined(parts, sep) =~= parts[0] + sep + joined(parts.drop_first(), sep));
    } else {
        lemma_joined_cons(parts.drop_last(), sep);
        assert(parts.drop_last()[0] == parts[0]);
        assert(parts.drop_last().drop_first() =~= parts.drop_first().drop_last());
        assert(parts.drop_first().len() >= 2);
        assert(joined(parts, sep) == joined(parts.drop_last(), sep) + sep + parts.last());
        assert(joined(parts.drop_last(), sep) == parts[0] + sep + joined(
            parts.drop_first().drop_last(),
            sep,
        ));
        assert(joined(parts.drop_first(), sep) == joined(parts.drop_first().drop_last(), sep)
            + sep + parts.drop_first().last());
        assert(parts.drop_first().last() == parts.last());
        assert(joined(parts, sep) =~= parts[0] + sep + joined(parts.drop_first(), sep));
    }
}

} // verus!


