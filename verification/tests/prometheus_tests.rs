//! Exposition serializer behaviour on concrete values.

use tomato_exporter::prometheus::{
    PromLabel, PromMetric, PromMetricType, PromResponse, PromSample,
};
use tomato_exporter::value::MetricValue;

fn four_and_a_half() -> MetricValue {
    MetricValue { units: 4, frac: 5, scale: 1 }
}

fn five_point_four() -> MetricValue {
    MetricValue { units: 5, frac: 4, scale: 1 }
}

#[test]
#[allow(non_snake_case)]
fn test__PromLabel__to_string() {
    let label = PromLabel::new("foo", "bar".to_string());
    assert_eq!(label.to_prom(), "foo=\"bar\"")
}

#[test]
#[allow(non_snake_case)]
fn test__PromSample__to_string__no_labels_no_timestamp() {
    let sample = PromSample::new(vec![], four_and_a_half(), None);
    assert_eq!(sample.to_prom("baz".to_string()), "baz{} 4.5")
}

#[test]
#[allow(non_snake_case)]
fn test__PromSample__to_string__no_labels_with_timestamp() {
    let sample = PromSample::new(vec![], four_and_a_half(), Some(12345));
    assert_eq!(sample.to_prom("baz".to_string()), "baz{} 4.5 12345")
}

#[test]
#[allow(non_snake_case)]
fn test__PromSample__to_string__one_label_no_timestamp() {
    let sample = PromSample::new(
        vec![PromLabel::new("foo", "bar".to_string())],
        four_and_a_half(),
        None,
    );
    assert_eq!(sample.to_prom("baz".to_string()), "baz{foo=\"bar\"} 4.5")
}

#[test]
#[allow(non_snake_case)]
fn test__PromSample__to_string__many_labels_no_timestamp() {
    let sample = PromSample::new(
        vec![
            PromLabel::new("foo", "bar".to_string()),
            PromLabel::new("go", "bucks".to_string()),
        ],
        four_and_a_half(),
        None,
    );
    assert_eq!(
        sample.to_prom("baz".to_string()),
        "baz{foo=\"bar\",go=\"bucks\"} 4.5"
    )
}

#[test]
#[allow(non_snake_case)]
fn test__PromMetric__to_string__no_samples() {
    let metric = PromMetric::new("baz", "A funny value", PromMetricType::Counter, vec![]);
    assert_eq!(
        metric.to_prom(),
        "# HELP baz A funny value\n# TYPE baz counter\n"
    )
}

#[test]
#[allow(non_snake_case)]
fn test__PromMetric__to_string__one_sample() {
    let metric = PromMetric::new(
        "baz",
        "A funny value",
        PromMetricType::Counter,
        vec![PromSample::new(
            vec![PromLabel::new("foo", "bar".to_string())],
            four_and_a_half(),
            None,
        )],
    );
    assert_eq!(
        metric.to_prom(),
        "# HELP baz A funny value\n# TYPE baz counter\nbaz{foo=\"bar\"} 4.5"
    )
}

#[test]
#[allow(non_snake_case)]
fn test__PromMetric__to_string__many_samples() {
    let metric = PromMetric::new(
        "baz",
        "A funny value",
        PromMetricType::Counter,
        vec![
            PromSample::new(
                vec![PromLabel::new("foo", "bar".to_string())],
                four_and_a_half(),
                None,
            ),
            PromSample::new(vec![], four_and_a_half(), Some(12345)),
        ],
    );
    assert_eq!(
        metric.to_prom(),
        "# HELP baz A funny value\n# TYPE baz counter\nbaz{foo=\"bar\"} 4.5\nbaz{} 4.5 12345"
    )
}

#[test]
#[allow(non_snake_case)]
fn test__PromResponse__to_string__no_metrics() {
    let response = PromResponse::new(vec![]);
    assert_eq!(response.to_prom(), "")
}

#[test]
#[allow(non_snake_case)]
fn test__PromResponse__to_string__one_metric() {
    let response = PromResponse::new(vec![PromMetric::new(
        "baz",
        "A funny value",
        PromMetricType::Counter,
        vec![PromSample::new(
            vec![PromLabel::new("foo", "bar".to_string())],
            four_and_a_half(),
            None,
        )],
    )]);
    assert_eq!(
        response.to_prom(),
        "# HELP baz A funny value\n# TYPE baz counter\nbaz{foo=\"bar\"} 4.5"
    )
}

#[test]
#[allow(non_snake_case)]
fn test__PromResponse__to_string__many_metrics() {
    let response = PromResponse::new(vec![
        PromMetric::new(
            "baz",
            "A funny value",
            PromMetricType::Counter,
            vec![PromSample::new(
                vec![PromLabel::new("foo", "bar".to_string())],
                four_and_a_half(),
                None,
            )],
        ),
        PromMetric::new(
            "spam",
            "A silly value",
            PromMetricType::Counter,
            vec![PromSample::new(
                vec![PromLabel::new("bar", "foo".to_string())],
                five_point_four(),
                None,
            )],
        ),
    ]);
    assert_eq!(
        response.to_prom(),
        "# HELP baz A funny value\n# TYPE baz counter\nbaz{foo=\"bar\"} 4.5\n# HELP spam A silly value\n# TYPE spam counter\nspam{bar=\"foo\"} 5.4"
    )
}

#[test]
fn value_rendering_exact() {
    assert_eq!(MetricValue::from_int(0).to_prom(), "0");
    assert_eq!(MetricValue::from_int(1598394934).to_prom(), "1598394934");
    assert_eq!(MetricValue::from_centi(162283).to_prom(), "1622.83");
    assert_eq!(MetricValue::from_centi(100).to_prom(), "1");
    assert_eq!(MetricValue::from_centi(0).to_prom(), "0");
    assert_eq!(MetricValue::from_millis(1500).to_prom(), "1.5");
    assert_eq!(MetricValue::from_millis(7).to_prom(), "0.007");
    assert_eq!(MetricValue::from_q16(224).to_prom(), "0.00341796875");
    assert_eq!(MetricValue::from_q16(2400).to_prom(), "0.03662109375");
    assert_eq!(MetricValue::from_q16(0).to_prom(), "0");
    let tenth = MetricValue { units: 0, frac: 10, scale: 2 };
    assert_eq!(tenth.to_prom(), "0.1");
}
