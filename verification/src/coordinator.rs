//! The per-cycle merge: collector outcomes in registration order become one
//! metric set.  A failing collector's series are absent, its meta-samples
//! are not: every cycle yields a complete document.

use vstd::prelude::*;

use crate::error::CollectorError;
use crate::prometheus::{
    metric_model, metrics_model, sample_model, samples_model, MetricModel, PromLabel, PromMetric,
    PromMetricType, PromResponse, PromSample, SampleModel,
};
use crate::value::MetricValue;

verus! {

/// What one collector produced this cycle: its family name, how long its
/// scrape took, and its series or its failure.
#[derive(Debug)]
pub struct ScrapeOutcome {
    pub name: String,
    pub duration: MetricValue,
    pub result: Result<Vec<PromMetric>, CollectorError>,
}

/// The series of the successful collectors, in registration order.
pub open spec fn ok_metrics(os: Seq<ScrapeOutcome>) -> Seq<MetricModel>
    decreases os.len(),
{
    if os.len() == 0 {
        Seq::empty()
    } else {
        ok_metrics(os.drop_last()) + match os.last().result {
            Result::Ok(ms) => metrics_model(ms@),
            Result::Err(_) => Seq::empty(),
        }
    }
}

/// One scrape-duration sample per collector, in registration order.
pub open spec fn duration_samples(os: Seq<ScrapeOutcome>) -> Seq<SampleModel>
    decreases os.len(),
{
    if os.len() == 0 {
        Seq::empty()
    } else {
        duration_samples(os.drop_last()) + seq![
            (
                seq![("collector"@, os.last().name@)],
                os.last().duration,
                Option::<u64>::None,
            ),
        ]
    }
}

pub open spec fn success_value(r: Result<Vec<PromMetric>, CollectorError>) -> MetricValue {
    MetricValue {
        units: if r is Ok {
            1
        } else {
            0
        },
        frac: 0,
        scale: 0,
    }
}

/// One success-flag sample per collector (1 or 0), in registration order.
pub open spec fn success_samples(os: Seq<ScrapeOutcome>) -> Seq<SampleModel>
    decreases os.len(),
{
    if os.len() == 0 {
        Seq::empty()
    } else {
        success_samples(os.drop_last()) + seq![
            (
                seq![("collector"@, os.last().name@)],
                success_value(os.last().result),
                Option::<u64>::None,
            ),
        ]
    }
}

/// The whole merged document: the successful collectors' series, then the
/// two coordinator meta-series.
pub open spec fn merged_model(os: Seq<ScrapeOutcome>) -> Seq<MetricModel> {
    ok_metrics(os) + seq![
        (
            "node_scrape_collector_duration_seconds"@,
            "node_exporter: Duration of a collector scrape"@,
            PromMetricType::Gauge,
            duration_samples(os),
        ),
        (
            "node_scrape_collector_success"@,
            "Whether a collector succeeded"@,
            PromMetricType::Gauge,
            success_samples(os),
        ),
    ]
}

fn collector_sample(name: &String, value: MetricValue) -> (s: PromSample)
    ensures
        sample_model(s) == (seq![("collector"@, name@)], value, Option::<u64>::None),
{
    let mut labels: Vec<PromLabel> = Vec::new();
    labels.push(PromLabel::new("collector", name.clone()));
    let s = PromSample::new(labels, value, Option::None);
    proof {
        assert(sample_model(s) =~~= (seq![("collector"@, name@)], value, Option::<u64>::None));
    }
    s
}

/// Merges the cycle's outcomes.  This function cannot fail: whatever the
/// collectors did, the merged document exists and is exactly the
/// successful series followed by the two meta-series.
pub fn merge_scrape_outcomes(outcomes: Vec<ScrapeOutcome>) -> (r: PromResponse)
    ensures
        metrics_model(r.metrics@) == merged_model(outcomes@),
{
    let ghost os0 = outcomes@;
    let mut outcomes = outcomes;
    let mut metrics: Vec<PromMetric> = Vec::new();
    let mut durs: Vec<PromSample> = Vec::new();
    let mut succs: Vec<PromSample> = Vec::new();
    proof {
        assert(os0.take(0) =~= Seq::<ScrapeOutcome>::empty());
        assert(metrics_model(metrics@) =~= ok_metrics(os0.take(0)));
        assert(samples_model(durs@) =~= duration_samples(os0.take(0)));
        assert(samples_model(succs@) =~= success_samples(os0.take(0)));
    }
    while outcomes.len() > 0
        invariant
            outcomes@.len() <= os0.len(),
            outcomes@ =~= os0.skip(os0.len() - outcomes@.len()),
            metrics_model(metrics@) == ok_metrics(os0.take(os0.len() - outcomes@.len())),
            samples_model(durs@) == duration_samples(os0.take(os0.len() - outcomes@.len())),
            samples_model(succs@) == success_samples(os0.take(os0.len() - outcomes@.len())),
        decreases outcomes.len(),
    {
        let ghost i = os0.len() - outcomes@.len();
        let o = outcomes.remove(0);
        proof {
            assert(o == os0[i]);
            assert(outcomes@ =~= os0.skip(i + 1));
            assert(os0.take(i + 1).drop_last() =~= os0.take(i));
            assert(os0.take(i + 1).last() == os0[i]);
        }
        let ghost base_d = samples_model(durs@);
        let dsample = collector_sample(&o.name, o.duration);
        durs.push(dsample);
        proof {
            assert(samples_model(durs@) =~= base_d.push(
                (seq![("collector"@, os0[i].name@)], os0[i].duration, Option::<u64>::None),
            ));
            assert(samples_model(durs@) =~= duration_samples(os0.take(i + 1)));
        }
        let ok = match &o.result {
            Result::Ok(_) => true,
            Result::Err(_) => false,
        };
        let ghost base_s = samples_model(succs@);
        let ssample = collector_sample(
            &o.name,
            MetricValue::from_int(
                if ok {
                    1
                } else {
                    0
                },
            ),
        );
        succs.push(ssample);
        proof {
            assert(MetricValue { units: if ok { 1u64 } else { 0u64 }, frac: 0, scale: 0 }
                == success_value(os0[i].result));
            assert(samples_model(succs@) =~= base_s.push(
                (
                    seq![("collector"@, os0[i].name@)],
                    success_value(os0[i].result),
                    Option::<u64>::None,
                ),
            ));
            assert(samples_model(succs@) =~= success_samples(os0.take(i + 1)));
        }
        let ghost base_m = metrics_model(metrics@);
        match o.result {
            Result::Ok(ms) => {
                let ghost ms0 = ms@;
                let mut ms = ms;
                proof {
                    assert(ms0.take(0) =~= Seq::<PromMetric>::empty());
                    assert(metrics_model(metrics@) =~= base_m + metrics_model(ms0.take(0)));
                }
                while ms.len() > 0
                    invariant
                        ms@.len() <= ms0.len(),
                        ms@ =~= ms0.skip(ms0.len() - ms@.len()),
                        metrics_model(metrics@) == base_m + metrics_model(
                            ms0.take(ms0.len() - ms@.len()),
                        ),
                    decreases ms.len(),
                {
                    let ghost k = ms0.len() - ms@.len();
                    let m = ms.remove(0);
                    proof {
                        assert(m == ms0[k]);
                        assert(ms@ =~= ms0.skip(k + 1));
                    }
                    metrics.push(m);
                    proof {
                        assert(metrics_model(metrics@) =~= (base_m + metrics_model(
                            ms0.take(k as int),
                        )).push(metric_model(ms0[k])));
                        assert(metrics_model(ms0.take(k + 1)) =~= metrics_model(
                            ms0.take(k as int),
                        ).push(metric_model(ms0[k])));
                        assert(base_m + metrics_model(ms0.take(k + 1)) =~= (base_m
                            + metrics_model(ms0.take(k as int))).push(metric_model(ms0[k])));
                    }
                }
                proof {
                    assert(ms0.take(ms0.len() as int) =~= ms0);
                    assert(metrics_model(metrics@) =~= ok_metrics(os0.take(i + 1)));
                }
            },
            Result::Err(_) => {
                proof {
                    assert(metrics_model(metrics@) =~= ok_metrics(os0.take(i + 1)));
                }
            },
        }
    }
    proof {
        assert(os0.take(os0.len() as int) =~= os0);
    }
    let dur_metric = PromMetric::new(
        "node_scrape_collector_duration_seconds",
        "node_exporter: Duration of a collector scrape",
        PromMetricType::Gauge,
        durs,
    );
    let succ_metric = PromMetric::new(
        "node_scrape_collector_success",
        "Whether a collector succeeded",
        PromMetricType::Gauge,
        succs,
    );
    metrics.push(dur_metric);
    metrics.push(succ_metric);
    let r = PromResponse::new(metrics);
    proof {
        let n = r.metrics@.len();
        assert(metrics_model(r.metrics@) =~= metrics_model(r.metrics@.take(n - 2)) + seq![
            metric_model(r.metrics@[n - 2]),
            metric_model(r.metrics@[n - 1]),
        ]);
        assert(metric_model(r.metrics@[n - 2]) =~~= (
            "node_scrape_collector_duration_seconds"@,
            "node_exporter: Duration of a collector scrape"@,
            PromMetricType::Gauge,
            duration_samples(os0),
        ));
        assert(metric_model(r.metrics@[n - 1]) =~~= (
            "node_scrape_collector_success"@,
            "Whether a collector succeeded"@,
            PromMetricType::Gauge,
            success_samples(os0),
        ));
        assert(metrics_model(r.metrics@.take(n - 2)) =~= ok_metrics(os0));
        assert(metrics_model(r.metrics@) =~= merged_model(os0));
    }
    r
}

pub proof fn lemma_duration_sample_at(os: Seq<ScrapeOutcome>, i: int)
    requires
        0 <= i < os.len(),
    ensures
        duration_samples(os).len() == os.len(),
        duration_samples(os)[i] == (
            seq![("collector"@, os[i].name@)],
            os[i].duration,
            Option::<u64>::None,
        ),
    decreases os.len(),
{
    reveal_with_fuel(duration_samples, 3);
    if i == os.len() - 1 {
        if os.len() > 1 {
            lemma_duration_sample_at(os.drop_last(), 0);
        }
    } else {
        lemma_duration_sample_at(os.drop_last(), i);
        assert(os.drop_last()[i] == os[i]);
    }
    assert(duration_samples(os)[i] =~~= (
        seq![("collector"@, os[i].name@)],
        os[i].duration,
        Option::<u64>::None,
    ));
}

pub proof fn lemma_success_sample_at(os: Seq<ScrapeOutcome>, i: int)
    requires
        0 <= i < os.len(),
    ensures
        success_samples(os).len() == os.len(),
        success_samples(os)[i] == (
            seq![("collector"@, os[i].name@)],
            success_value(os[i].result),
            Option::<u64>::None,
        ),
    decreases os.len(),
{
    reveal_with_fuel(success_samples, 3);
    if i == os.len() - 1 {
        if os.len() > 1 {
            lemma_success_sample_at(os.drop_last(), 0);
        }
    } else {
        lemma_success_sample_at(os.drop_last(), i);
        assert(os.drop_last()[i] == os[i]);
    }
    assert(success_samples(os)[i] =~~= (
        seq![("collector"@, os[i].name@)],
        success_value(os[i].result),
        Option::<u64>::None,
    ));
}

/// One collector's failure is isolated: the merged series are exactly
/// those that would be merged without it, and its own meta-samples still
/// appear, with the success flag at 0.
pub proof fn lemma_failure_isolated(os: Seq<ScrapeOutcome>, i: int)
    requires
        0 <= i < os.len(),
        os[i].result is Err,
    ensures
        ok_metrics(os) == ok_metrics(os.remove(i)),
        success_samples(os)[i] == (
            seq![("collector"@, os[i].name@)],
            MetricValue { units: 0, frac: 0, scale: 0 },
            Option::<u64>::None,
        ),
        duration_samples(os)[i] == (
            seq![("collector"@, os[i].name@)],
            os[i].duration,
            Option::<u64>::None,
        ),
    decreases os.len(),
{
    lemma_success_sample_at(os, i);
    lemma_duration_sample_at(os, i);
    assert(success_value(os[i].result) == MetricValue { units: 0, frac: 0, scale: 0 });
    if i == os.len() - 1 {
        assert(os.remove(i) =~= os.drop_last());
        assert(ok_metrics(os) =~= ok_metrics(os.drop_last()) + Seq::<MetricModel>::empty());
        assert(ok_metrics(os.drop_last()) + Seq::<MetricModel>::empty() =~= ok_metrics(
            os.drop_last(),
        ));
    } else {
        lemma_failure_isolated(os.drop_last(), i);
        assert(os.drop_last()[i] == os[i]);
        assert(os.remove(i).drop_last() =~= os.drop_last().remove(i));
        assert(os.remove(i).last() == os.last());
        assert(ok_metrics(os.remove(i)) == ok_metrics(os.remove(i).drop_last()) + match os.remove(
            i,
        ).last().result {
            Result::Ok(ms) => metrics_model(ms@),
            Result::Err(_) => Seq::<MetricModel>::empty(),
        });
    }
}

} // verus!
