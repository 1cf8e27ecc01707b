use chalk_metrics::aggregator::count::CountSlot;

#[test]
fn count_test_record_single() {
    let mut slot = CountSlot::new();
    slot.record(5);
    assert_eq!(slot.flush(), 5);
}

#[test]
fn test_record_multiple_increments() {
    let mut slot = CountSlot::new();
    slot.record(1);
    slot.record(2);
    slot.record(3);
    assert_eq!(slot.flush(), 6);
}

#[test]
fn count_test_flush_resets() {
    let mut slot = CountSlot::new();
    slot.record(10);
    assert_eq!(slot.flush(), 10);
    assert_eq!(slot.flush(), 0);
}

#[test]
fn test_negative_delta() {
    let mut slot = CountSlot::new();
    slot.record(10);
    slot.record(-3);
    assert_eq!(slot.flush(), 7);
}

#[test]
fn count_default_is_zero() {
    let mut slot = CountSlot::default();
    assert_eq!(slot.flush(), 0);
}

#[test]
fn count_wraps_on_overflow() {
    let mut slot = CountSlot::new();
    slot.record(i64::MAX);
    slot.record(1);
    assert_eq!(slot.flush(), i64::MIN);
}

#[test]
fn count_accumulates_many_records() {
    let mut slot = CountSlot::new();
    for _ in 0..4000 {
        slot.record(1);
    }
    assert_eq!(slot.flush(), 4000);
}

#[test]
fn count_order_does_not_matter() {
    let deltas = [5i64, -3, i64::MAX, 7, i64::MIN, 11];
    let mut forward = CountSlot::new();
    for d in deltas {
        forward.record(d);
    }
    let mut backward = CountSlot::new();
    for d in deltas.iter().rev() {
        backward.record(*d);
    }
    let expected = deltas.iter().fold(0i64, |a, d| a.wrapping_add(*d));
    assert_eq!(forward.flush(), expected);
    assert_eq!(backward.flush(), expected);
}
