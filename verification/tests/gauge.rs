use chalk_metrics::aggregator::gauge::GaugeSlot;

fn read(slot: &GaugeSlot) -> Option<f64> {
    slot.flush().map(f64::from_bits)
}

#[test]
fn gauge_test_record_single() {
    let mut slot = GaugeSlot::new();
    slot.record(42.5f64.to_bits());
    assert_eq!(read(&slot), Some(42.5));
}

#[test]
fn test_unset_returns_none() {
    let slot = GaugeSlot::new();
    assert_eq!(read(&slot), None);
    assert!(!slot.has_value());
}

#[test]
fn test_flush_does_not_reset() {
    let mut slot = GaugeSlot::new();
    slot.record(10.0f64.to_bits());
    assert_eq!(read(&slot), Some(10.0));
    assert_eq!(read(&slot), Some(10.0));
}

#[test]
fn test_last_writer_wins() {
    let mut slot = GaugeSlot::new();
    slot.record(1.0f64.to_bits());
    slot.record(2.0f64.to_bits());
    slot.record(3.0f64.to_bits());
    assert_eq!(read(&slot), Some(3.0));
}

#[test]
fn test_negative_and_zero() {
    let mut slot = GaugeSlot::new();
    slot.record((-5.5f64).to_bits());
    assert_eq!(read(&slot), Some(-5.5));
    slot.record(0.0f64.to_bits());
    assert_eq!(read(&slot), Some(0.0));
}

#[test]
fn gauge_has_value_after_record() {
    let mut slot = GaugeSlot::default();
    assert!(!slot.has_value());
    slot.record(7.0f64.to_bits());
    assert!(slot.has_value());
}

#[test]
fn gauge_every_bit_pattern_is_a_value() {
    let mut slot = GaugeSlot::new();
    slot.record(u64::MAX);
    assert!(slot.has_value());
    assert_eq!(slot.flush(), Some(u64::MAX));
    assert!(slot.has_value());
}
