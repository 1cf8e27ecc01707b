use std::sync::Arc;

use chalk_metrics::aggregator::sketch::{FloatStats, SketchHashKey, UDDSketch, UddCore};
use chalk_metrics::export::prometheus::{format_full_name, format_tags, render, FloatTexts};
use chalk_metrics::export::{FlushedMetric, FlushedValue, TagsData};

fn make_tags(pairs: Vec<(&'static str, String)>) -> Arc<TagsData> {
    Arc::new(TagsData { pairs })
}

fn sketch_with(keys: &[i64]) -> UDDSketch {
    let mut core = UddCore::new(200);
    for k in keys {
        core.add_key(SketchHashKey::Positive(*k));
    }
    UDDSketch::from_parts(
        core,
        FloatStats { alpha: 0, gamma: 0, values_sum: 0, min: 0, max: 0 },
    )
}

fn render_one(prefix: Option<&str>, m: FlushedMetric, t: FloatTexts) -> String {
    render(prefix, &[m], &[t])
}

#[test]
fn test_counter_format() {
    let m = FlushedMetric {
        namespace: &[],
        metric_name: "request_count",
        tags: make_tags(vec![]),
        value: FlushedValue::Count(42),
    };
    let text = render_one(None, m, FloatTexts::Count);
    assert!(text.contains("# HELP request_count_total"));
    assert!(text.contains("# TYPE request_count_total counter"));
    assert!(text.contains("request_count_total 42"));
}

#[test]
fn test_gauge_format() {
    let m = FlushedMetric {
        namespace: &[],
        metric_name: "temperature",
        tags: make_tags(vec![]),
        value: FlushedValue::Gauge(23.5f64.to_bits()),
    };
    let text = render_one(None, m, FloatTexts::Gauge { value: format!("{}", 23.5f64) });
    assert!(text.contains("# TYPE temperature gauge"));
    assert!(text.contains("temperature 23.5"));
}

#[test]
fn test_histogram_format() {
    // 100 values; the bucket estimates at 1, 5 and 10 are handed in as text.
    let keys: Vec<i64> = (1..=100).collect();
    let m = FlushedMetric {
        namespace: &[],
        metric_name: "latency",
        tags: make_tags(vec![]),
        value: FlushedValue::Histogram(sketch_with(&keys)),
    };
    let t = FloatTexts::Histogram {
        buckets: vec![("1".to_string(), 10), ("5".to_string(), 50), ("10".to_string(), 100)],
        sum: "505".to_string(),
    };
    let text = render_one(None, m, t);
    assert!(text.contains("# TYPE latency histogram"));
    assert!(text.contains("latency_bucket{le=\"1\"}"));
    assert!(text.contains("latency_bucket{le=\"5\"}"));
    assert!(text.contains("latency_bucket{le=\"10\"}"));
    assert!(text.contains("latency_bucket{le=\"+Inf\"} 100"));
    assert!(text.contains("latency_sum"));
    assert!(text.contains("latency_count 100"));
}

#[test]
fn test_tags_formatting() {
    let m = FlushedMetric {
        namespace: &[],
        metric_name: "req",
        tags: make_tags(vec![("endpoint", "/api".into()), ("status", "success".into())]),
        value: FlushedValue::Count(1),
    };
    let text = render_one(None, m, FloatTexts::Count);
    assert!(text.contains("req_total{endpoint=\"/api\",status=\"success\"} 1"));
}

#[test]
fn test_namespace_prefix() {
    let m = FlushedMetric {
        namespace: &[],
        metric_name: "req",
        tags: make_tags(vec![]),
        value: FlushedValue::Gauge(1.0f64.to_bits()),
    };
    let text = render_one(Some("myapp"), m, FloatTexts::Gauge { value: format!("{}", 1.0f64) });
    assert!(text.contains("myapp_req 1"));
}

#[test]
fn test_histogram_with_tags() {
    let m = FlushedMetric {
        namespace: &[],
        metric_name: "lat",
        tags: make_tags(vec![("ep", "/api".into())]),
        value: FlushedValue::Histogram(sketch_with(&[-693])),
    };
    let t = FloatTexts::Histogram { buckets: vec![("1".to_string(), 1)], sum: "0.5".to_string() };
    let text = render_one(None, m, t);
    assert!(text.contains("lat_bucket{ep=\"/api\",le=\"1\"} 1"));
    assert!(text.contains("lat_bucket{ep=\"/api\",le=\"+Inf\"} 1"));
}

#[test]
fn test_metric_namespace() {
    let m = FlushedMetric {
        namespace: &["http"],
        metric_name: "request_count",
        tags: make_tags(vec![]),
        value: FlushedValue::Count(5),
    };
    let text = render_one(None, m, FloatTexts::Count);
    assert!(text.contains("http_request_count_total 5"), "text: {text}");
}

#[test]
fn test_nested_namespace_with_exporter_prefix() {
    let m = FlushedMetric {
        namespace: &["http", "auth"],
        metric_name: "login_latency",
        tags: make_tags(vec![]),
        value: FlushedValue::Gauge(0.5f64.to_bits()),
    };
    let text = render_one(Some("myapp"), m, FloatTexts::Gauge { value: format!("{}", 0.5f64) });
    assert!(text.contains("myapp_http_auth_login_latency 0.5"), "text: {text}");
}

#[test]
fn counter_exposition_is_exact() {
    let m = FlushedMetric {
        namespace: &["http"],
        metric_name: "req",
        tags: make_tags(vec![("a", "b".into())]),
        value: FlushedValue::Count(-7),
    };
    let text = render_one(Some("app"), m, FloatTexts::Count);
    assert_eq!(
        text,
        "# HELP app_http_req_total app_http_req\n# TYPE app_http_req_total counter\napp_http_req_total{a=\"b\"} -7\n"
    );
}

#[test]
fn histogram_buckets_are_cumulative() {
    let m = FlushedMetric {
        namespace: &[],
        metric_name: "h",
        tags: make_tags(vec![]),
        value: FlushedValue::Histogram(sketch_with(&[1, 2, 3])),
    };
    // A bucket estimate below its predecessor is printed as the predecessor.
    let t = FloatTexts::Histogram {
        buckets: vec![("1".to_string(), 2), ("2".to_string(), 1), ("3".to_string(), 3)],
        sum: "6".to_string(),
    };
    let text = render_one(None, m, t);
    assert!(text.contains("h_bucket{le=\"1\"} 2\n"));
    assert!(text.contains("h_bucket{le=\"2\"} 2\n"));
    assert!(text.contains("h_bucket{le=\"3\"} 3\n"));
    assert!(text.contains("h_bucket{le=\"+Inf\"} 3\n"));
    assert!(text.contains("h_count 3\n"));
    assert!(text.contains("h_sum 6\n"));
}

#[test]
fn tags_block_and_full_name() {
    assert_eq!(format_tags(&vec![]), "");
    assert_eq!(format_tags(&vec![("k", "v".to_string())]), "{k=\"v\"}");
    assert_eq!(format_full_name(None, &[], "m"), "m");
    assert_eq!(format_full_name(Some("p"), &["a", "b"], "m"), "p_a_b_m");
}

#[test]
fn render_of_nothing_is_empty() {
    assert_eq!(render(None, &[], &[]), "");
}
