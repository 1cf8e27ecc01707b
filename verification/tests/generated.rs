use std::collections::hash_map::DefaultHasher;
use std::hash::{Hash, Hasher};

use chalk_metrics::aggregator::sketch::{FloatStats, SketchHashKey, UDDSketch, UddCore};
use chalk_metrics::aggregator::striped_map::StripedAggMap;
use chalk_metrics::export::FlushedValue;
use chalk_metrics::generated::{
    Endpoint, Http, HttpActiveConnections, HttpAuth, HttpAuthLoginCount, HttpRequestCount,
    HttpRequestLatency, Region, Resolver, ResolverLatency, Status, Uptime,
};

fn hash_of<T: Hash>(t: &T) -> u64 {
    let mut h = DefaultHasher::new();
    t.hash(&mut h);
    h.finish()
}

/// A fresh sketch with the default error bound and bucket limit.
fn fresh_sketch() -> UDDSketch {
    let alpha = 0.001f64;
    let gamma = (1.0 + alpha) / (1.0 - alpha);
    UDDSketch::from_parts(
        UddCore::new(200),
        FloatStats {
            alpha: alpha.to_bits(),
            gamma: gamma.to_bits(),
            values_sum: 0.0f64.to_bits(),
            min: f64::INFINITY.to_bits(),
            max: f64::NEG_INFINITY.to_bits(),
        },
    )
}

/// Add a positive value to a sketch: its bucket is `ceil(ln v / ln gamma)`.
fn observe(mut s: UDDSketch, v: f64) -> UDDSketch {
    let st = s.stats();
    let gamma = f64::from_bits(st.gamma);
    let key = (v.ln() / gamma.ln()).ceil() as i64;
    s.counts_mut().add_key(SketchHashKey::Positive(key));
    s.set_stats(FloatStats {
        values_sum: (f64::from_bits(st.values_sum) + v).to_bits(),
        min: f64::from_bits(st.min).min(v).to_bits(),
        max: f64::from_bits(st.max).max(v).to_bits(),
        ..st
    });
    s
}

#[test]
fn test_enum_tag_display() {
    assert_eq!(Status::Success.to_string(), "success");
    assert_eq!(Status::Failure.to_string(), "failure");
    assert_eq!(Status::Timeout.to_string(), "timeout");
}

#[test]
fn test_string_tag_display() {
    assert_eq!(Endpoint::from("api/v1").to_string(), "api/v1");
    assert_eq!(Endpoint::from(String::from("api/v1")).as_str(), "api/v1");
}

#[test]
fn test_metric_name_and_namespace() {
    assert_eq!(Uptime::NAME, "uptime");
    assert_eq!(Uptime::namespace(), &[] as &[&str]);

    assert_eq!(HttpRequestCount::NAME, "request_count");
    assert_eq!(HttpRequestCount::namespace(), &["http"]);

    assert_eq!(HttpRequestLatency::NAME, "request_latency");
    assert_eq!(HttpRequestLatency::namespace(), &["http"]);

    assert_eq!(ResolverLatency::NAME, "latency");
    assert_eq!(ResolverLatency::namespace(), &["resolver"]);

    assert_eq!(HttpAuthLoginCount::NAME, "login_count");
    assert_eq!(HttpAuthLoginCount::namespace(), &["http", "auth"]);
}

#[test]
fn test_metric_struct_hash_eq() {
    let a = HttpRequestLatency {
        endpoint: Endpoint::from("api/v1"),
        status: Status::Success,
    };
    let b = HttpRequestLatency {
        endpoint: Endpoint::from("api/v1"),
        status: Status::Success,
    };
    assert_eq!(a, b);
    assert_eq!(hash_of(&a), hash_of(&b));

    let c = HttpRequestLatency {
        endpoint: Endpoint::from("api/v2"),
        status: Status::Success,
    };
    assert_ne!(a, c);
}

#[test]
fn test_optional_tag() {
    let tags = HttpActiveConnections {
        endpoint: Endpoint::from("api/v1"),
        region: None,
    };
    let pairs = tags.export_pairs();
    assert_eq!(pairs.len(), 1);
    assert_eq!(pairs[0].0, "endpoint");
    assert_eq!(pairs[0].1.as_str(), "api/v1");

    let tags_with = HttpActiveConnections {
        endpoint: Endpoint::from("api/v1"),
        region: Some(Region::from("us-east-1")),
    };
    let pairs = tags_with.export_pairs();
    assert_eq!(pairs.len(), 2);
    assert_eq!(pairs[1].0, "region");
    assert_eq!(pairs[1].1.as_str(), "us-east-1");
}

#[test]
fn test_export_name_override() {
    let tags = ResolverLatency {
        endpoint: Endpoint::from("api/v1"),
        resolver_status: Status::Success,
        resolver_fqn: None,
    };
    let pairs = tags.export_pairs();
    assert_eq!(pairs[1].0, "resolver_status");
    assert_eq!(pairs[1].1.as_str(), "success");
}

#[test]
fn test_optional_alias() {
    let tags = ResolverLatency {
        endpoint: Endpoint::from("api/v1"),
        resolver_status: Status::Success,
        resolver_fqn: Some(Endpoint::from("resolver.example")),
    };
    let pairs = tags.export_pairs();
    assert_eq!(pairs[2].0, "resolver_fqn");
    assert_eq!(pairs[2].1.as_str(), "resolver.example");
}

#[test]
fn test_top_level_metric_empty_tags() {
    let tags = Uptime {};
    let pairs = tags.export_pairs();
    assert!(pairs.is_empty());
}

#[test]
fn test_record_count_compiles() {
    let mut map = StripedAggMap::new();
    let m = HttpRequestCount {
        endpoint: Endpoint::from("/api"),
        status: Status::Success,
    };
    let h = hash_of(&m);
    map.record_count(0, HttpRequestCount::NAME, HttpRequestCount::namespace(), h, || m.export_pairs(), 1);
    map.record_count(0, HttpRequestCount::NAME, HttpRequestCount::namespace(), h, || m.export_pairs(), 5);
    let flushed = map.flush();
    assert_eq!(flushed.len(), 1);
    assert!(matches!(flushed[0].value, FlushedValue::Count(6)));
    assert_eq!(flushed[0].tags.pairs.len(), 2);
}

#[test]
fn test_record_gauge_compiles() {
    let mut map = StripedAggMap::new();
    let m = Uptime {};
    map.record_gauge(0, Uptime::NAME, Uptime::namespace(), hash_of(&m), || m.export_pairs(), 42.0f64.to_bits());
    let flushed = map.flush();
    assert_eq!(flushed.len(), 1);
    match flushed[0].value {
        FlushedValue::Gauge(bits) => assert_eq!(f64::from_bits(bits), 42.0),
        _ => panic!("expected gauge"),
    }
}

#[test]
fn test_record_histogram_compiles() {
    let mut map = StripedAggMap::new();
    let m = HttpRequestLatency {
        endpoint: Endpoint::from("/api"),
        status: Status::Success,
    };
    map.record_histogram(
        0,
        HttpRequestLatency::NAME,
        HttpRequestLatency::namespace(),
        hash_of(&m),
        || m.export_pairs(),
        fresh_sketch(),
        |s| observe(s, 0.042),
    );
    let flushed = map.flush();
    assert_eq!(flushed.len(), 1);
    match &flushed[0].value {
        FlushedValue::Histogram(s) => assert_eq!(s.count(), 1),
        _ => panic!("expected histogram"),
    }
}

#[test]
fn test_record_macro() {
    let mut map = StripedAggMap::new();
    let c = HttpRequestCount {
        endpoint: Endpoint::from("/api"),
        status: Status::Success,
    };
    map.record_count(0, HttpRequestCount::NAME, HttpRequestCount::namespace(), hash_of(&c), || c.export_pairs(), 1);
    let u = Uptime {};
    map.record_gauge(1, Uptime::NAME, Uptime::namespace(), hash_of(&u), || u.export_pairs(), 42.0f64.to_bits());
    let l = HttpRequestLatency {
        endpoint: Endpoint::from("/api"),
        status: Status::Success,
    };
    map.record_histogram(
        2,
        HttpRequestLatency::NAME,
        HttpRequestLatency::namespace(),
        hash_of(&l),
        || l.export_pairs(),
        fresh_sketch(),
        |s| observe(s, 0.042),
    );
    assert_eq!(map.flush().len(), 3);
}

#[test]
fn namespace_paths_of_markers() {
    assert_eq!(Http::path(), &["http"]);
    assert_eq!(Resolver::path(), &["resolver"]);
    assert_eq!(HttpAuth::path(), &["http", "auth"]);
}

#[test]
fn region_tag_conversions_agree() {
    assert_eq!(Region::from("eu").as_str(), "eu");
    assert_eq!(Region::from(String::from("eu")), Region::from("eu"));
    assert_eq!(Region::from("eu").export_value(), "eu");
    assert_eq!(Status::Timeout.as_str(), "timeout");
    assert_eq!(Status::Failure.export_value(), "failure");
}

#[test]
fn export_pairs_of_login_count() {
    let m = HttpAuthLoginCount {
        endpoint: Endpoint::from("/login"),
        status: Status::Failure,
    };
    let pairs = m.export_pairs();
    assert_eq!(pairs.len(), 2);
    assert_eq!(pairs[0], ("endpoint", String::from("/login")));
    assert_eq!(pairs[1], ("status", String::from("failure")));
}
