use chalk_metrics::aggregator::sketch::{FloatStats, SketchHashKey, UDDSketch, UddCore};
use chalk_metrics::aggregator::striped_map::{combine_hash, StripedAggMap, STRIPE_COUNT};
use chalk_metrics::export::FlushedValue;

fn make_map() -> StripedAggMap {
    StripedAggMap::new()
}

fn fresh() -> UDDSketch {
    let alpha = 0.001f64;
    let gamma = (1.0 + alpha) / (1.0 - alpha);
    UDDSketch::from_parts(
        UddCore::new(200),
        FloatStats {
            alpha: alpha.to_bits(),
            gamma: gamma.to_bits(),
            values_sum: 0.0f64.to_bits(),
            min: f64::INFINITY.to_bits(),
            max: f64::NEG_INFINITY.to_bits(),
        },
    )
}

fn observe(v: f64) -> impl FnOnce(UDDSketch) -> UDDSketch {
    move |mut s: UDDSketch| {
        let gamma = f64::from_bits(s.stats().gamma);
        let key = (v.ln() / gamma.ln()).ceil() as i64;
        s.counts_mut().add_key(SketchHashKey::Positive(key));
        s
    }
}

#[test]
fn test_insert_and_record_count() {
    let mut map = make_map();
    map.record_count(0, "test_count", &[], 123, || vec![("k", "v".into())], 5);
    map.record_count(0, "test_count", &[], 123, || panic!("should not call"), 3);

    let flushed = map.flush();
    assert_eq!(flushed.len(), 1);
    match &flushed[0].value {
        FlushedValue::Count(v) => assert_eq!(*v, 8),
        _ => panic!("expected count"),
    }
    assert_eq!(flushed[0].metric_name, "test_count");
    assert!(flushed[0].namespace.is_empty());
}

#[test]
fn test_insert_with_namespace() {
    let mut map = make_map();
    map.record_count(0, "request_count", &["http"], 100, || vec![], 1);

    let flushed = map.flush();
    assert_eq!(flushed.len(), 1);
    assert_eq!(flushed[0].namespace, &["http"]);
    assert_eq!(flushed[0].metric_name, "request_count");
}

#[test]
fn test_insert_with_nested_namespace() {
    let mut map = make_map();
    map.record_count(0, "login", &["http", "auth"], 100, || vec![], 1);

    let flushed = map.flush();
    assert_eq!(flushed[0].namespace, &["http", "auth"]);
}

#[test]
fn test_insert_and_record_gauge() {
    let mut map = make_map();
    map.record_gauge(1, "test_gauge", &[], 456, || vec![("g", "1".into())], 10.0f64.to_bits());
    map.record_gauge(1, "test_gauge", &[], 456, || panic!("should not call"), 20.0f64.to_bits());

    let flushed = map.flush();
    assert_eq!(flushed.len(), 1);
    match &flushed[0].value {
        FlushedValue::Gauge(v) => assert_eq!(f64::from_bits(*v), 20.0),
        _ => panic!("expected gauge"),
    }
}

#[test]
fn test_insert_and_record_histogram() {
    let mut map = make_map();
    map.record_histogram(2, "test_hist", &[], 789, || vec![("h", "1".into())], fresh(), observe(42.0));
    map.record_histogram(2, "test_hist", &[], 789, || panic!("should not call"), fresh(), observe(43.0));

    let flushed = map.flush();
    assert_eq!(flushed.len(), 1);
    match &flushed[0].value {
        FlushedValue::Histogram(sketch) => {
            assert_eq!(sketch.count(), 2);
        }
        _ => panic!("expected histogram"),
    }
}

#[test]
fn test_different_metrics() {
    let mut map = make_map();
    map.record_count(0, "count_a", &[], 100, || vec![], 1);
    map.record_count(1, "count_b", &[], 100, || vec![], 2);

    let flushed = map.flush();
    assert_eq!(flushed.len(), 2);
}

#[test]
fn test_flush_removes_count_entries() {
    let mut map = make_map();
    map.record_count(0, "c", &[], 100, || vec![], 5);
    assert_eq!(map.flush().len(), 1);
    assert_eq!(map.flush().len(), 0);
}

#[test]
fn test_flush_retains_gauge_entries() {
    let mut map = make_map();
    map.record_gauge(0, "g", &[], 100, || vec![], 42.0f64.to_bits());
    assert_eq!(map.flush().len(), 1);
    assert_eq!(map.flush().len(), 1);
}

#[test]
fn test_flush_removes_histogram_entries() {
    let mut map = make_map();
    map.record_histogram(0, "h", &[], 100, || vec![], fresh(), observe(1.0));
    assert_eq!(map.flush().len(), 1);
    assert_eq!(map.flush().len(), 0);
}

#[test]
fn repeated_records_same_key() {
    let mut map = make_map();
    for _ in 0..8000 {
        map.record_count(0, "c", &[], 42, || vec![("t", "v".into())], 1);
    }
    let flushed = map.flush();
    assert_eq!(flushed.len(), 1);
    match &flushed[0].value {
        FlushedValue::Count(v) => assert_eq!(*v, 8000),
        _ => panic!("expected count"),
    }
}

#[test]
fn combine_hash_mixes_metric_id() {
    assert_eq!(combine_hash(0, 0), 0);
    assert_eq!(combine_hash(7, 0), 7);
    assert_eq!(combine_hash(0, 1), 6364136223846793005);
    assert_eq!(combine_hash(1, 2), 6364136223846793005u64.wrapping_mul(2).wrapping_add(1));
    assert_ne!(combine_hash(0, 100), combine_hash(1, 100));
}

#[test]
fn stripe_count_is_sixty_four() {
    assert_eq!(STRIPE_COUNT, 64);
}

#[test]
fn kind_clash_leaves_existing_entry_alone() {
    let mut map = make_map();
    map.record_count(0, "m", &[], 9, || vec![], 3);
    map.record_gauge(0, "m", &[], 9, || panic!("should not call"), 1.0f64.to_bits());
    let flushed = map.flush();
    assert_eq!(flushed.len(), 1);
    assert!(matches!(flushed[0].value, FlushedValue::Count(3)));
}

#[test]
fn gauge_survives_flush_between_counts() {
    let mut map = make_map();
    map.record_gauge(0, "g", &[], 1, || vec![], 5.0f64.to_bits());
    map.record_count(1, "c", &[], 1, || vec![], 2);
    assert_eq!(map.flush().len(), 2);
    let second = map.flush();
    assert_eq!(second.len(), 1);
    assert_eq!(second[0].metric_name, "g");
}

#[test]
fn interleaved_counts_sum_per_key() {
    let mut map = make_map();
    map.record_count(0, "a", &[], 7, || vec![("t", "x".into())], i64::MAX);
    map.record_count(1, "b", &[], 7, || vec![], -4);
    map.record_count(0, "a", &[], 7, || panic!("key already seen"), 2);
    map.record_count(1, "b", &[], 7, || panic!("key already seen"), 10);
    let mut flushed = map.flush();
    flushed.sort_by_key(|m| m.metric_name);
    assert_eq!(flushed.len(), 2);
    assert_eq!(flushed[0].metric_name, "a");
    assert_eq!(flushed[0].tags.pairs, vec![("t", "x".to_string())]);
    match &flushed[0].value {
        FlushedValue::Count(v) => assert_eq!(*v, i64::MIN + 1),
        _ => panic!("expected count"),
    }
    match &flushed[1].value {
        FlushedValue::Count(v) => assert_eq!(*v, 6),
        _ => panic!("expected count"),
    }
}
