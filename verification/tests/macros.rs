use std::collections::hash_map::DefaultHasher;
use std::hash::{Hash, Hasher};

use chalk_metrics::aggregator::sketch::{FloatStats, SketchHashKey, UDDSketch, UddCore};
use chalk_metrics::aggregator::striped_map::StripedAggMap;
use chalk_metrics::export::FlushedValue;
use chalk_metrics::generated::{
    Endpoint, HttpActiveConnections, HttpRequestCount, HttpRequestLatency, Region, Status, Uptime,
};

fn hash_of<T: Hash>(t: &T) -> u64 {
    let mut h = DefaultHasher::new();
    t.hash(&mut h);
    h.finish()
}

fn gauge_value(map: &mut StripedAggMap) -> f64 {
    let flushed = map.flush();
    assert_eq!(flushed.len(), 1);
    match flushed[0].value {
        FlushedValue::Gauge(bits) => f64::from_bits(bits),
        _ => panic!("expected gauge"),
    }
}

#[test]
fn test_count_macro() {
    let mut map = StripedAggMap::new();
    let tags = HttpRequestCount {
        endpoint: Endpoint::from("/api"),
        status: Status::Success,
    };
    map.record_count(0, HttpRequestCount::NAME, HttpRequestCount::namespace(), hash_of(&tags), || tags.export_pairs(), 1);
    let flushed = map.flush();
    assert!(matches!(flushed[0].value, FlushedValue::Count(1)));
    assert_eq!(flushed[0].namespace, &["http"]);
    assert_eq!(flushed[0].metric_name, "request_count");
}

#[test]
fn test_gauge_macro() {
    let mut map = StripedAggMap::new();
    let tags = HttpActiveConnections {
        endpoint: Endpoint::from("/api"),
        region: None,
    };
    map.record_gauge(0, HttpActiveConnections::NAME, HttpActiveConnections::namespace(), hash_of(&tags), || tags.export_pairs(), 42.0f64.to_bits());
    assert_eq!(gauge_value(&mut map), 42.0);
}

#[test]
fn test_histogram_macro() {
    let mut map = StripedAggMap::new();
    let tags = HttpRequestLatency {
        endpoint: Endpoint::from("/api"),
        status: Status::Success,
    };
    let alpha = 0.001f64;
    let gamma = (1.0 + alpha) / (1.0 - alpha);
    let fresh = UDDSketch::from_parts(
        UddCore::new(200),
        FloatStats {
            alpha: alpha.to_bits(),
            gamma: gamma.to_bits(),
            values_sum: 0.0f64.to_bits(),
            min: f64::INFINITY.to_bits(),
            max: f64::NEG_INFINITY.to_bits(),
        },
    );
    let key = (0.042f64.ln() / gamma.ln()).ceil() as i64;
    map.record_histogram(
        0,
        HttpRequestLatency::NAME,
        HttpRequestLatency::namespace(),
        hash_of(&tags),
        || tags.export_pairs(),
        fresh,
        |mut s| {
            s.counts_mut().add_key(SketchHashKey::Positive(key));
            s
        },
    );
    let flushed = map.flush();
    match &flushed[0].value {
        FlushedValue::Histogram(s) => assert_eq!(s.count(), 1),
        _ => panic!("expected histogram"),
    }
}

#[test]
fn test_macro_with_optional_tag() {
    let mut map = StripedAggMap::new();
    let tags = HttpActiveConnections {
        endpoint: Endpoint::from("/api"),
        region: Some(Region::from("us-east-1")),
    };
    map.record_gauge(0, HttpActiveConnections::NAME, HttpActiveConnections::namespace(), hash_of(&tags), || tags.export_pairs(), 10.0f64.to_bits());
    let flushed = map.flush();
    assert_eq!(flushed[0].tags.pairs.len(), 2);
    assert_eq!(flushed[0].tags.pairs[1], ("region", String::from("us-east-1")));
}

#[test]
fn test_top_level_metric() {
    let mut map = StripedAggMap::new();
    let tags = Uptime {};
    map.record_gauge(0, Uptime::NAME, Uptime::namespace(), hash_of(&tags), || tags.export_pairs(), 123.0f64.to_bits());
    assert_eq!(gauge_value(&mut map), 123.0);
}
