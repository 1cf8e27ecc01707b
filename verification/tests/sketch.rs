use chalk_metrics::aggregator::sketch::{SketchHashKey, SketchHashMap, UddCore};

use SketchHashKey::{Invalid, Negative, Positive, Zero};

fn buckets(core: &UddCore) -> Vec<(SketchHashKey, u64)> {
    let mut it = core.bucket_iter();
    let mut out = Vec::new();
    while let Some(e) = it.next() {
        out.push(e);
    }
    out
}

#[test]
fn key_validity() {
    assert!(Negative(3).is_valid());
    assert!(Zero.is_valid());
    assert!(Positive(-2).is_valid());
    assert!(!Invalid.is_valid());
}

#[test]
fn key_order_runs_negatives_zero_positives_invalid() {
    let ordered = [Negative(5), Negative(1), Negative(-2), Zero, Positive(-3), Positive(2), Positive(9), Invalid];
    for i in 0..ordered.len() {
        for j in 0..ordered.len() {
            assert_eq!(ordered[i].less_than(&ordered[j]), i < j, "{:?} vs {:?}", ordered[i], ordered[j]);
        }
    }
}

#[test]
fn compact_key_halves_rounding_up() {
    assert_eq!(Positive(3).compact_key(), Positive(2));
    assert_eq!(Positive(4).compact_key(), Positive(2));
    assert_eq!(Positive(1).compact_key(), Positive(1));
    assert_eq!(Positive(0).compact_key(), Positive(0));
    assert_eq!(Positive(-3).compact_key(), Positive(-1));
    assert_eq!(Positive(-4).compact_key(), Positive(-2));
    assert_eq!(Negative(5).compact_key(), Negative(3));
    assert_eq!(Positive(i64::MAX).compact_key(), Positive(i64::MAX));
    assert_eq!(Negative(i64::MAX).compact_key(), Negative(i64::MAX));
    assert_eq!(Positive(i64::MIN).compact_key(), Positive(i64::MIN / 2));
    assert_eq!(Zero.compact_key(), Zero);
    assert_eq!(Invalid.compact_key(), Invalid);
}

#[test]
fn map_keeps_keys_sorted_and_counts() {
    let mut m = SketchHashMap::new();
    m.increment(Positive(5));
    m.increment(Zero);
    m.increment(Negative(2));
    m.increment(Positive(5));
    m.add(Positive(1), 4);
    assert_eq!(m.len(), 4);
    let mut it = m.iter();
    assert_eq!(it.next(), Some((Negative(2), 1)));
    assert_eq!(it.next(), Some((Zero, 1)));
    assert_eq!(it.next(), Some((Positive(1), 4)));
    assert_eq!(it.next(), Some((Positive(5), 2)));
    assert_eq!(it.next(), None);
    assert_eq!(m.get(2), (Positive(1), 4));
}

#[test]
fn map_compact_merges_neighbours() {
    let mut m = SketchHashMap::new();
    m.add(Positive(3), 1);
    m.add(Positive(4), 2);
    m.add(Positive(6), 5);
    m.add(Zero, 7);
    m.compact();
    let mut it = m.iter();
    assert_eq!(it.next(), Some((Zero, 7)));
    assert_eq!(it.next(), Some((Positive(2), 3)));
    assert_eq!(it.next(), Some((Positive(3), 5)));
    assert_eq!(it.next(), None);
}

#[test]
fn compact_sums_the_buckets_that_meet() {
    let mut m = SketchHashMap::new();
    m.add(Negative(-3), 2);
    m.add(Negative(-2), 3);
    m.add(Negative(5), 1);
    m.add(Zero, 1);
    m.add(Positive(1), 4);
    m.add(Positive(2), 6);
    m.compact();
    let mut it = m.iter();
    assert_eq!(it.next(), Some((Negative(3), 1)));
    assert_eq!(it.next(), Some((Negative(-1), 5)));
    assert_eq!(it.next(), Some((Zero, 1)));
    assert_eq!(it.next(), Some((Positive(1), 10)));
    assert_eq!(it.next(), None);
}

#[test]
fn core_compact_halves_buckets() {
    let mut core = UddCore::new(200);
    for k in 1..=100 {
        core.add_key(Positive(k));
    }
    assert_eq!(core.current_buckets_count(), 100);
    core.compact_buckets();
    assert_eq!(core.compactions(), 1);
    assert_eq!(core.current_buckets_count(), 50);
    assert_eq!(core.count(), 100);
    let total: u64 = buckets(&core).iter().map(|b| b.1).sum();
    assert_eq!(total, 100);
}

#[test]
fn adding_past_the_limit_compacts() {
    let mut core = UddCore::new(2);
    core.add_key(Positive(1));
    core.add_key(Positive(2));
    assert_eq!(core.compactions(), 0);
    core.add_key(Positive(3));
    assert!(core.current_buckets_count() <= 2);
    assert!(core.compactions() >= 1);
    assert_eq!(core.count(), 3);
    assert_eq!(core.max_buckets(), 2);
}

#[test]
fn zero_values_are_counted_apart() {
    let mut core = UddCore::new(200);
    core.add_key(Zero);
    core.add_key(Zero);
    core.add_key(Positive(7));
    assert_eq!(core.count(), 3);
    assert_eq!(core.zero_count(), 2);
}

#[test]
fn core_merge_adds_counts() {
    let mut a = UddCore::new(200);
    let mut b = UddCore::new(200);
    for k in 1..=50 {
        a.add_key(Positive(k));
    }
    for k in 51..=100 {
        b.add_key(Positive(k));
    }
    a.merge(&b);
    assert_eq!(a.count(), 100);
    assert_eq!(a.current_buckets_count(), 100);
}

#[test]
fn core_merge_with_empty() {
    let mut a = UddCore::new(200);
    let b = UddCore::new(200);
    a.add_key(Positive(4));
    a.merge(&b);
    assert_eq!(a.count(), 1);

    let mut c = UddCore::new(200);
    c.merge(&a);
    assert_eq!(c.count(), 1);
    assert_eq!(buckets(&c), vec![(Positive(4), 1)]);
}

#[test]
fn merge_brings_both_to_the_same_compaction_level() {
    let mut a = UddCore::new(200);
    a.add_key(Positive(3));
    a.add_key(Positive(4));
    a.compact_buckets();
    let mut b = UddCore::new(200);
    b.add_key(Positive(4));
    a.merge(&b);
    assert_eq!(a.compactions(), 1);
    assert_eq!(buckets(&a), vec![(Positive(2), 3)]);
}

#[test]
fn rank_lookup() {
    let mut core = UddCore::new(200);
    core.add_key(Positive(1));
    core.add_key(Positive(2));
    core.add_key(Positive(2));
    core.add_key(Positive(3));
    assert_eq!(core.bucket_at_rank(0), Some(Positive(1)));
    assert_eq!(core.bucket_at_rank(1), Some(Positive(1)));
    assert_eq!(core.bucket_at_rank(2), Some(Positive(2)));
    assert_eq!(core.bucket_at_rank(3), Some(Positive(2)));
    assert_eq!(core.bucket_at_rank(4), Some(Positive(3)));
    assert_eq!(UddCore::new(10).bucket_at_rank(0), None);
}

#[test]
fn cdf_counts_split_around_target() {
    let mut core = UddCore::new(200);
    core.add_key(Negative(1));
    core.add_key(Zero);
    core.add_key(Positive(2));
    core.add_key(Positive(2));
    core.add_key(Positive(5));
    assert_eq!(core.cdf_counts(Positive(2)), (2, 2, true));
    assert_eq!(core.cdf_counts(Positive(3)), (4, 0, true));
    assert_eq!(core.cdf_counts(Positive(9)), (5, 0, false));
    assert_eq!(core.cdf_counts(Negative(7)), (0, 0, true));
}

#[test]
fn core_empty() {
    let core = UddCore::new(200);
    assert_eq!(core.count(), 0);
    assert_eq!(core.current_buckets_count(), 0);
    assert_eq!(core.bucket_at_rank(5), None);
}

#[test]
fn try_add_key_refuses_only_what_cannot_fit() {
    let mut small = UddCore::new(6);
    assert!(small.try_add_key(Positive(1)));
    assert_eq!(small.count(), 1);

    // With room for one bucket, a zero beside a positive value can never
    // be compacted into a single bucket.
    let mut one = UddCore::new(1);
    assert!(one.try_add_key(Positive(5)));
    assert!(one.try_add_key(Positive(9)));
    assert_eq!(one.current_buckets_count(), 1);
    assert!(!one.try_add_key(Zero));
    assert_eq!(one.count(), 2);

    let mut core = UddCore::new(7);
    assert!(!core.try_add_key(Invalid));
    assert!(core.try_add_key(Positive(1)));
    assert_eq!(core.count(), 1);
}

#[test]
fn try_merge_with_little_room() {
    let mut a = UddCore::new(1);
    let mut b = UddCore::new(1);
    assert!(a.try_add_key(Positive(3)));
    assert!(b.try_add_key(Positive(40)));
    assert!(a.try_merge(&b));
    assert_eq!(a.count(), 2);
    assert_eq!(a.current_buckets_count(), 1);
    let mut z = UddCore::new(1);
    assert!(z.try_add_key(Zero));
    assert!(!a.try_merge(&z));
    assert_eq!(a.count(), 2);
}

#[test]
fn seven_buckets_always_suffice() {
    let mut core = UddCore::new(7);
    let keys = [
        Positive(i64::MAX),
        Positive(i64::MIN),
        Negative(i64::MAX),
        Negative(i64::MIN),
        Zero,
        Positive(123_456_789),
        Negative(-987_654_321),
        Positive(1),
        Negative(0),
        Positive(-1),
    ];
    for k in keys {
        assert!(core.try_add_key(k));
        assert!(core.current_buckets_count() <= 7);
    }
    assert_eq!(core.count(), keys.len() as u64);
}

#[test]
fn try_merge_checks_its_conditions() {
    let mut a = UddCore::new(200);
    let mut b = UddCore::new(100);
    assert!(a.try_add_key(Positive(3)));
    assert!(b.try_add_key(Positive(3)));
    assert!(!a.try_merge(&b));
    assert_eq!(a.count(), 1);

    let mut c = UddCore::new(200);
    assert!(c.try_add_key(Positive(3)));
    assert!(a.try_merge(&c));
    assert_eq!(a.count(), 2);
    assert_eq!(buckets(&a), vec![(Positive(3), 2)]);
}
