use std::sync::Arc;

use chalk_metrics::aggregator::sketch::{FloatStats, SketchHashKey, UDDSketch, UddCore};
use chalk_metrics::export::statsd::{
    batch_lines, format_datagrams, format_lines, format_tags, needs_reconnect, HistogramExportMode,
    StatsdTexts,
};
use chalk_metrics::export::{FlushedMetric, FlushedValue, TagsData};

fn make_tags(pairs: Vec<(&'static str, String)>) -> Arc<TagsData> {
    Arc::new(TagsData { pairs })
}

fn sketch_with(keys: &[i64]) -> UDDSketch {
    let mut core = UddCore::new(200);
    for k in keys {
        core.add_key(SketchHashKey::Positive(*k));
    }
    UDDSketch::from_parts(core, FloatStats { alpha: 0, gamma: 0, values_sum: 0, min: 0, max: 0 })
}

fn lines_of(prefix: Option<&str>, defaults: Vec<(String, String)>, m: FlushedMetric, t: StatsdTexts) -> Vec<String> {
    format_lines(prefix, &defaults, &[m], &[t])
}

#[test]
fn test_format_count() {
    let metric = FlushedMetric {
        namespace: &[],
        metric_name: "request_count",
        tags: make_tags(vec![]),
        value: FlushedValue::Count(42),
    };
    let lines = lines_of(None, vec![], metric, StatsdTexts::Count);
    assert_eq!(lines, vec!["request_count:42|c"]);
}

#[test]
fn test_format_gauge() {
    let metric = FlushedMetric {
        namespace: &[],
        metric_name: "temperature",
        tags: make_tags(vec![]),
        value: FlushedValue::Gauge(23.5f64.to_bits()),
    };
    let lines = lines_of(None, vec![], metric, StatsdTexts::Gauge { value: format!("{}", 23.5f64) });
    assert_eq!(lines, vec!["temperature:23.5|g"]);
}

#[test]
fn test_format_with_tags() {
    let metric = FlushedMetric {
        namespace: &[],
        metric_name: "req",
        tags: make_tags(vec![("endpoint", "/api".into()), ("status", "success".into())]),
        value: FlushedValue::Count(1),
    };
    let lines = lines_of(None, vec![], metric, StatsdTexts::Count);
    assert_eq!(lines, vec!["req:1|c|#endpoint:/api,status:success"]);
}

#[test]
fn test_format_with_namespace() {
    let metric = FlushedMetric {
        namespace: &[],
        metric_name: "req",
        tags: make_tags(vec![]),
        value: FlushedValue::Count(1),
    };
    let lines = lines_of(Some("myapp"), vec![], metric, StatsdTexts::Count);
    assert_eq!(lines, vec!["myapp.req:1|c"]);
}

#[test]
fn test_format_with_default_tags() {
    let metric = FlushedMetric {
        namespace: &[],
        metric_name: "req",
        tags: make_tags(vec![("ep", "/api".into())]),
        value: FlushedValue::Count(1),
    };
    let lines = lines_of(None, vec![("env".into(), "prod".into())], metric, StatsdTexts::Count);
    assert_eq!(lines, vec!["req:1|c|#env:prod,ep:/api"]);
}

#[test]
fn test_format_histogram_percentiles() {
    let keys: Vec<i64> = (1..=100).collect();
    let metric = FlushedMetric {
        namespace: &[],
        metric_name: "latency",
        tags: make_tags(vec![]),
        value: FlushedValue::Histogram(sketch_with(&keys)),
    };
    let t = StatsdTexts::Percentiles {
        avg: "50.5".to_string(),
        quantiles: vec![("p50".to_string(), "50".to_string()), ("p99".to_string(), "99".to_string())],
    };
    let lines = lines_of(None, vec![], metric, t);

    assert_eq!(lines.len(), 4);
    assert!(lines[0].starts_with("latency.count:100|g"));
    assert!(lines[1].starts_with("latency.avg:"));
    assert!(lines[2].contains("latency.p50:"));
    assert!(lines[3].contains("latency.p99:"));
}

#[test]
fn test_format_histogram_distribution() {
    let metric = FlushedMetric {
        namespace: &[],
        metric_name: "latency",
        tags: make_tags(vec![]),
        value: FlushedValue::Histogram(sketch_with(&[3740])),
    };
    let lines = lines_of(None, vec![], metric, StatsdTexts::Distribution { mean: format!("{}", 42.0f64) });
    assert_eq!(lines, vec!["latency:42|d"]);
}

#[test]
fn default_histogram_mode_has_four_percentiles() {
    match HistogramExportMode::default() {
        HistogramExportMode::Percentiles(ps) => {
            let ps: Vec<f64> = ps.into_iter().map(f64::from_bits).collect();
            assert_eq!(ps, vec![0.5, 0.9, 0.95, 0.99]);
        }
        HistogramExportMode::Distribution => panic!("expected percentiles"),
    }
}

#[test]
fn namespaced_count_with_prefix() {
    let metric = FlushedMetric {
        namespace: &["http", "auth"],
        metric_name: "login",
        tags: make_tags(vec![]),
        value: FlushedValue::Count(-2),
    };
    let lines = lines_of(Some("app"), vec![], metric, StatsdTexts::Count);
    assert_eq!(lines, vec!["app.http.auth.login:-2|c"]);
}

#[test]
fn tag_suffix() {
    assert_eq!(format_tags(&vec![], &vec![]), "");
    assert_eq!(format_tags(&vec![("a".into(), "1".into())], &vec![]), "|#a:1");
    assert_eq!(format_tags(&vec![("a".into(), "1".into())], &vec![("b", "2".into())]), "|#a:1,b:2");
}

#[test]
fn batching_packs_lines_up_to_the_limit() {
    let lines: Vec<String> = vec!["aaaa".into(), "bbbb".into(), "cccc".into()];
    // "aaaa\nbbbb" is 9 bytes; adding "\ncccc" would make 14.
    assert_eq!(batch_lines(&lines, 9), vec!["aaaa\nbbbb", "cccc"]);
    assert_eq!(batch_lines(&lines, 14), vec!["aaaa\nbbbb\ncccc"]);
    assert_eq!(batch_lines(&lines, 4), vec!["aaaa", "bbbb", "cccc"]);
    // A line longer than the limit travels alone.
    assert_eq!(batch_lines(&lines, 2), vec!["aaaa", "bbbb", "cccc"]);
    assert_eq!(batch_lines(&vec![], 10), Vec::<String>::new());
}

#[test]
fn datagrams_keep_every_line() {
    let metrics = vec![
        FlushedMetric { namespace: &[], metric_name: "a", tags: make_tags(vec![]), value: FlushedValue::Count(1) },
        FlushedMetric { namespace: &[], metric_name: "b", tags: make_tags(vec![]), value: FlushedValue::Count(2) },
    ];
    let texts = vec![StatsdTexts::Count, StatsdTexts::Count];
    let d = format_datagrams(None, &vec![], &metrics, &texts, 1432);
    assert_eq!(d, vec!["a:1|c\nb:2|c"]);
    let d = format_datagrams(None, &vec![], &metrics, &texts, 5);
    assert_eq!(d, vec!["a:1|c", "b:2|c"]);
}

#[test]
fn reconnect_only_on_a_new_readable_inode() {
    assert!(needs_reconnect(5, 4));
    assert!(!needs_reconnect(5, 5));
    assert!(!needs_reconnect(0, 4));
    assert!(needs_reconnect(7, 0));
}
