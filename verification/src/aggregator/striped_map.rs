use std::sync::Arc;

use vstd::prelude::*;

use crate::aggregator::count::{lemma_wrap_add, wrap_i64, wrapping_sum, CountSlot};
use crate::aggregator::gauge::GaugeSlot;
use crate::aggregator::sketch::UDDSketch;
use crate::export::{FlushedMetric, FlushedValue};

verus! {

/// The number of stripes the aggregation map is split into.
pub const STRIPE_COUNT: usize = 64;

/// Tag data stored in the aggregation map: `(export_name, value)` pairs,
/// computed once when a tag combination is first seen.
pub struct TagsData {
    pub pairs: Vec<(&'static str, String)>,
}

/// The aggregate kept for one metric and tag combination.
pub enum AggSlot {
    Count(CountSlot),
    Gauge(GaugeSlot),
    Histogram(UDDSketch),
}

/// One entry of the aggregation map: who the metric is, and its aggregate.
pub struct AggEntry {
    pub metric_id: u16,
    pub tags_hash: u64,
    pub namespace: &'static [&'static str],
    pub metric_name: &'static str,
    pub tags: Arc<TagsData>,
    pub slot: AggSlot,
}

/// One stripe of the aggregation map: a `hashbrown` table from combined
/// hash to entry.
#[verifier::external_body]
pub struct StripeTable {
    map: hashbrown::HashMap<u64, AggEntry>,
}

/// The entries a stripe holds, by combined hash.
pub uninterp spec fn stripe_entries(t: StripeTable) -> Map<u64, AggEntry>;

/// `hashbrown::HashMap::new`: a table with no entries.
#[verifier::external_body]
fn stripe_new() -> (table: StripeTable)
    ensures
        stripe_entries(table).dom() == Set::<u64>::empty(),
{
    StripeTable { map: hashbrown::HashMap::new() }
}

/// `hashbrown::HashMap::remove`: takes the entry under `key` out of the
/// table and hands it back, or `None` when there is none.
#[verifier::external_body]
fn stripe_remove(t: &mut StripeTable, key: u64) -> (r: Option<AggEntry>)
    ensures
        r == if stripe_entries(*old(t)).contains_key(key) {
            Some(stripe_entries(*old(t))[key])
        } else {
            None::<AggEntry>
        },
        stripe_entries(*final(t)) == stripe_entries(*old(t)).remove(key),
{
    t.map.remove(&key)
}

/// `hashbrown::HashMap::insert`: puts `entry` under `key`, replacing any
/// entry that was there.
#[verifier::external_body]
fn stripe_insert(t: &mut StripeTable, key: u64, entry: AggEntry)
    ensures
        stripe_entries(*final(t)) == stripe_entries(*old(t)).insert(key, entry),
{
    t.map.insert(key, entry);
}

/// `hashbrown::HashMap::drain`, collected: every entry of the table once,
/// in an order the table chooses, and the table left empty.
#[verifier::external_body]
fn stripe_drain(t: &mut StripeTable) -> (v: Vec<(u64, AggEntry)>)
    ensures
        stripe_entries(*final(t)).dom() == Set::<u64>::empty(),
        forall|i: int|
            0 <= i < v@.len() ==> stripe_entries(*old(t)).contains_key(#[trigger] v@[i].0)
                && stripe_entries(*old(t))[v@[i].0] == v@[i].1,
        forall|i: int, j: int| 0 <= i < j < v@.len() ==> #[trigger] v@[i].0 != #[trigger] v@[j].0,
        forall|k: u64|
            #[trigger] stripe_entries(*old(t)).contains_key(k) ==> exists|i: int|
                0 <= i < v@.len() && #[trigger] v@[i].0 == k,
{
    t.map.drain().collect()
}

/// `Arc::clone`: another handle to the same tag data.
#[verifier::external_body]
fn share_tags(tags: &Arc<TagsData>) -> (r: Arc<TagsData>)
    ensures
        r == *tags,
{
    Arc::clone(tags)
}

/// The key under which a metric and tag combination is aggregated.
pub open spec fn spec_combine_hash(metric_id: u16, tags_hash: u64) -> u64 {
    vstd::wrapping::u64_specs::wrapping_add(
        vstd::wrapping::u64_specs::wrapping_mul(tags_hash, 6364136223846793005u64),
        metric_id as u64,
    )
}

/// Mix a metric id into a tag hash.
pub fn combine_hash(metric_id: u16, tags_hash: u64) -> (h: u64)
    ensures
        h == spec_combine_hash(metric_id, tags_hash),
{
    tags_hash.wrapping_mul(6364136223846793005u64).wrapping_add(metric_id as u64)
}

/// The stripe a key belongs to: its low six bits.
pub open spec fn stripe_of(key: u64) -> int {
    (key % 64) as int
}

/// Same metric, same tags, same place: the entry fields other than the
/// aggregate agree.
pub open spec fn same_identity(a: AggEntry, b: AggEntry) -> bool {
    &&& a.metric_id == b.metric_id
    &&& a.tags_hash == b.tags_hash
    &&& a.namespace == b.namespace
    &&& a.metric_name == b.metric_name
    &&& a.tags == b.tags
}

/// An entry created for a first-seen key: the given identity and the tag
/// pairs that `make_tags` produced.
pub open spec fn fresh_identity(
    e: AggEntry,
    metric_id: u16,
    tags_hash: u64,
    namespace: &'static [&'static str],
    metric_name: &'static str,
    make_tags: impl FnOnce() -> Vec<(&'static str, String)>,
) -> bool {
    &&& e.metric_id == metric_id
    &&& e.tags_hash == tags_hash
    &&& e.namespace == namespace
    &&& e.metric_name == metric_name
    &&& call_ensures(make_tags, (), e.tags.pairs)
}

/// `new` is `old` after a count of `delta`: a count slot adds it, any other
/// slot is left alone.
pub open spec fn counted(old: AggEntry, new: AggEntry, delta: i64) -> bool {
    same_identity(old, new) && match old.slot {
        AggSlot::Count(s) => new.slot matches AggSlot::Count(t) && t@ == wrapping_sum(s@, delta),
        _ => new.slot == old.slot,
    }
}

/// `after` is `before` once `delta` is counted under `key`: a first-seen key
/// gets a new count entry holding `delta`, a known key is counted, and every
/// other entry stays as it was.
pub open spec fn count_recorded(
    before: Map<u64, AggEntry>,
    after: Map<u64, AggEntry>,
    key: u64,
    delta: i64,
) -> bool {
    &&& after.dom() == before.dom().insert(key)
    &&& forall|k: u64| k != key && #[trigger] before.contains_key(k) ==> after[k] == before[k]
    &&& before.contains_key(key) ==> counted(before[key], after[key], delta)
    &&& !before.contains_key(key) ==> (after[key].slot matches AggSlot::Count(c) && c@ == delta)
}

/// The sum of the deltas among the first `n` that were counted under `k`.
pub open spec fn deltas_for(keys: Seq<u64>, deltas: Seq<i64>, k: u64, n: int) -> int
    decreases n,
{
    if n <= 0 {
        0
    } else {
        deltas_for(keys, deltas, k, n - 1) + if keys[n - 1] == k {
            deltas[n - 1] as int
        } else {
            0
        }
    }
}

proof fn lemma_deltas_for_absent(keys: Seq<u64>, deltas: Seq<i64>, k: u64, n: int)
    requires
        forall|j: int| 0 <= j < n ==> #[trigger] keys[j] != k,
    ensures
        deltas_for(keys, deltas, k, n) == 0,
    decreases n,
{
    if n > 0 {
        lemma_deltas_for_absent(keys, deltas, k, n - 1);
    }
}

/// The state after the first `n` counts of a run, key by key.
proof fn lemma_counts_prefix(
    ms: Seq<Map<u64, AggEntry>>,
    keys: Seq<u64>,
    deltas: Seq<i64>,
    n: int,
)
    requires
        ms.len() == keys.len() + 1,
        deltas.len() == keys.len(),
        0 <= n <= keys.len(),
        forall|j: int|
            0 <= j < keys.len() ==> count_recorded(#[trigger] ms[j], ms[j + 1], keys[j], deltas[j]),
        forall|j: int| 0 <= j < keys.len() ==> !ms[0].contains_key(#[trigger] keys[j]),
    ensures
        ms[n].dom() == ms[0].dom().union(keys.take(n).to_set()),
        forall|k: u64| #[trigger] ms[0].contains_key(k) ==> ms[n][k] == ms[0][k],
        forall|j: int|
            0 <= j < n ==> (ms[n][#[trigger] keys[j]].slot matches AggSlot::Count(c) && c@
                == wrap_i64(deltas_for(keys, deltas, keys[j], n))),
        forall|j: int| 0 <= j < n ==> same_identity(ms[n][#[trigger] keys[j]], ms[j + 1][keys[j]]),
    decreases n,
{
    if n == 0 {
        assert(keys.take(0).to_set() =~= Set::<u64>::empty());
        assert(ms[0].dom().union(Set::<u64>::empty()) =~= ms[0].dom());
    } else {
        let p = n - 1;
        lemma_counts_prefix(ms, keys, deltas, p);
        let kn = keys[p];
        let dn = deltas[p];
        assert(count_recorded(ms[p], ms[p + 1], kn, dn));
        assert(keys.take(n).to_set() =~= keys.take(p).to_set().insert(kn)) by {
            assert forall|x: u64| keys.take(n).to_set().contains(x) implies keys.take(
                p,
            ).to_set().insert(kn).contains(x) by {
                let i = choose|i: int| 0 <= i < n && keys.take(n)[i] == x;
                if i < p {
                    assert(keys.take(p)[i] == x);
                }
            }
            assert forall|x: u64| keys.take(p).to_set().insert(kn).contains(x) implies keys.take(
                n,
            ).to_set().contains(x) by {
                if x == kn {
                    assert(keys.take(n)[p] == x);
                } else {
                    let i = choose|i: int| 0 <= i < p && keys.take(p)[i] == x;
                    assert(keys.take(n)[i] == x);
                }
            }
        }
        assert(ms[n].dom() =~= ms[0].dom().union(keys.take(n).to_set()));
        assert forall|k: u64| #[trigger] ms[0].contains_key(k) implies ms[n][k] == ms[0][k] by {
            assert(k != kn);
            assert(ms[p].dom().contains(k));
            assert(ms[p][k] == ms[0][k]);
        }
        let seen = exists|j: int| 0 <= j < p && #[trigger] keys[j] == kn;
        if seen {
            let j0 = choose|j: int| 0 <= j < p && #[trigger] keys[j] == kn;
            assert(keys.take(p)[j0] == kn);
            assert(ms[p].contains_key(kn));
            let s0 = deltas_for(keys, deltas, kn, p);
            lemma_wrap_add(s0, dn);
        } else {
            assert(!ms[p].contains_key(kn)) by {
                if ms[p].contains_key(kn) {
                    assert(!ms[0].contains_key(kn));
                    assert(keys.take(p).to_set().contains(kn));
                    let i = choose|i: int| 0 <= i < p && keys.take(p)[i] == kn;
                    assert(keys[i] == kn);
                }
            }
            lemma_deltas_for_absent(keys, deltas, kn, p);
            lemma_wrap_add(0, dn);
            assert(0int % 0x1_0000_0000_0000_0000int == 0);
        }
        assert forall|j: int| 0 <= j < n implies (ms[n][#[trigger] keys[j]].slot matches AggSlot::Count(
            c,
        ) && c@ == wrap_i64(deltas_for(keys, deltas, keys[j], n))) by {
            if keys[j] != kn {
                assert(j < p);
                assert(keys.take(p)[j] == keys[j]);
                assert(ms[p].contains_key(keys[j]));
            } else if j < p {
                assert(seen);
            }
        }
        assert forall|j: int| 0 <= j < n implies same_identity(
            ms[n][#[trigger] keys[j]],
            ms[j + 1][keys[j]],
        ) by {
            if j < p {
                assert(keys.take(p)[j] == keys[j]);
                assert(ms[p].contains_key(keys[j]));
                if keys[j] == kn {
                    assert(same_identity(ms[p][kn], ms[j + 1][kn]));
                }
            }
        }
    }
}

/// Counting between flushes. Take a run of counts, each made under a key
/// that held no entry when the run began (as after a flush, for keys that
/// carry no gauge). At its end every key counted holds one count entry: its
/// value is the wrapped sum of all the deltas counted under that key, its
/// identity is the one its first count gave it, and the next flush emits it
/// as that count. Every other entry is untouched.
pub proof fn lemma_counts_accumulate(
    ms: Seq<Map<u64, AggEntry>>,
    keys: Seq<u64>,
    deltas: Seq<i64>,
)
    requires
        ms.len() == keys.len() + 1,
        deltas.len() == keys.len(),
        forall|j: int|
            0 <= j < keys.len() ==> count_recorded(#[trigger] ms[j], ms[j + 1], keys[j], deltas[j]),
        forall|j: int| 0 <= j < keys.len() ==> !ms[0].contains_key(#[trigger] keys[j]),
    ensures
        ms.last().dom() == ms[0].dom().union(keys.to_set()),
        forall|k: u64| #[trigger] ms[0].contains_key(k) ==> ms.last()[k] == ms[0][k],
        forall|j: int|
            0 <= j < keys.len() ==> {
                let e = ms.last()[#[trigger] keys[j]];
                let v = wrap_i64(deltas_for(keys, deltas, keys[j], keys.len() as int));
                &&& e.slot matches AggSlot::Count(c) && c@ == v
                &&& emits(e)
                &&& emitted(e).value == FlushedValue::Count(v)
                &&& same_identity(e, ms[j + 1][keys[j]])
            },
{
    let n = keys.len() as int;
    lemma_counts_prefix(ms, keys, deltas, n);
    assert(keys.take(n) =~= keys);
}

/// `new` is `old` after a gauge reading: a gauge slot takes it, any other
/// slot is left alone.
pub open spec fn gauged(old: AggEntry, new: AggEntry, value_bits: u64) -> bool {
    same_identity(old, new) && match old.slot {
        AggSlot::Gauge(_) => new.slot matches AggSlot::Gauge(t) && t@ == Some(value_bits),
        _ => new.slot == old.slot,
    }
}

/// `new` is `old` after a histogram observation: a histogram slot is passed
/// through `observe`, any other slot is left alone.
pub open spec fn observed(
    old: AggEntry,
    new: AggEntry,
    observe: impl FnOnce(UDDSketch) -> UDDSketch,
) -> bool {
    same_identity(old, new) && match old.slot {
        AggSlot::Histogram(h) => new.slot matches AggSlot::Histogram(g) && call_ensures(
            observe,
            (h,),
            g,
        ),
        _ => new.slot == old.slot,
    }
}

/// Whether a flush emits a metric for this entry: always for a count, for a
/// gauge once it has a value, for a histogram once it holds a value.
pub open spec fn emits(e: AggEntry) -> bool {
    match e.slot {
        AggSlot::Count(_) => true,
        AggSlot::Gauge(g) => g@ is Some,
        AggSlot::Histogram(h) => h.spec_counts().spec_count() > 0,
    }
}

/// The metric a flush emits for an entry.
pub open spec fn emitted(e: AggEntry) -> FlushedMetric {
    FlushedMetric {
        namespace: e.namespace,
        metric_name: e.metric_name,
        tags: e.tags,
        value: match e.slot {
            AggSlot::Count(c) => FlushedValue::Count(c@),
            AggSlot::Gauge(g) => FlushedValue::Gauge(
                match g@ {
                    Some(b) => b,
                    None => 0,
                },
            ),
            AggSlot::Histogram(h) => FlushedValue::Histogram(h),
        },
    }
}

/// The result of a flush, in some order: one emitted metric for each entry
/// that emits, and nothing else.
pub open spec fn flushed_from(out: Seq<FlushedMetric>, before: Map<u64, AggEntry>) -> bool {
    exists|ks: Seq<u64>|
        {
            &&& ks.no_duplicates()
            &&& ks.len() == out.len()
            &&& forall|i: int|
                0 <= i < ks.len() ==> before.contains_key(#[trigger] ks[i]) && emits(before[ks[i]])
                    && out[i] == emitted(before[ks[i]])
            &&& forall|k: u64|
                #[trigger] before.contains_key(k) && emits(before[k]) ==> ks.contains(k)
        }
}

/// The entries of `m` that hold a gauge.
pub open spec fn gauge_only(m: Map<u64, AggEntry>) -> Map<u64, AggEntry> {
    Map::new(|k: u64| m.contains_key(k) && m[k].slot is Gauge, |k: u64| m[k])
}

/// What a flush leaves behind is only gauges, and flushing it again leaves
/// the same: gauges persist across flushes while counts and histograms
/// start over.
pub proof fn lemma_flush_keeps_gauges(m: Map<u64, AggEntry>)
    ensures
        forall|k: u64| #[trigger] gauge_only(m).contains_key(k) ==> gauge_only(m)[k].slot is Gauge,
        forall|k: u64|
            m.contains_key(k) && (#[trigger] m[k]).slot is Gauge ==> gauge_only(m).contains_key(k)
                && gauge_only(m)[k] == m[k],
        gauge_only(gauge_only(m)) == gauge_only(m),
{
    assert(gauge_only(gauge_only(m)) =~= gauge_only(m));
}

/// Flush one stripe: append the metrics its entries emit to `out`, keep only
/// its gauge entries. The ghost result lists the keys behind the appended
/// metrics, in order.
fn flush_stripe(t: &mut StripeTable, out: &mut Vec<FlushedMetric>) -> (ks: Ghost<Seq<u64>>)
    requires
        stripe_entries(*old(t)).dom().finite(),
    ensures
        stripe_entries(*final(t)) == gauge_only(stripe_entries(*old(t))),
        ks@.no_duplicates(),
        final(out)@.len() == old(out)@.len() + ks@.len(),
        forall|j: int| 0 <= j < old(out)@.len() ==> final(out)@[j] == old(out)@[j],
        forall|j: int|
            0 <= j < ks@.len() ==> stripe_entries(*old(t)).contains_key(#[trigger] ks@[j]) && emits(
                stripe_entries(*old(t))[ks@[j]],
            ) && final(out)@[old(out)@.len() + j] == emitted(stripe_entries(*old(t))[ks@[j]]),
        forall|k: u64|
            #[trigger] stripe_entries(*old(t)).contains_key(k) && emits(stripe_entries(*old(t))[k])
                ==> ks@.contains(k),
{
    let ghost m0 = stripe_entries(*t);
    let ghost out0 = out@;
    let mut drained = stripe_drain(t);
    let ghost d0 = drained@;
    let ghost mut done: Set<u64> = Set::empty();
    let ghost mut ks: Seq<u64> = Seq::empty();
    while drained.len() > 0
        invariant
            drained@ == d0.take(drained@.len() as int),
            drained@.len() <= d0.len(),
            forall|p: int|
                0 <= p < d0.len() ==> m0.contains_key(#[trigger] d0[p].0) && m0[d0[p].0] == d0[p].1,
            forall|p: int, q: int| 0 <= p < q < d0.len() ==> #[trigger] d0[p].0 != #[trigger] d0[q].0,
            forall|k: u64| #[trigger] m0.contains_key(k) ==> exists|p: int| 0 <= p < d0.len() && #[trigger] d0[p].0 == k,
            forall|p: int| 0 <= p < drained@.len() ==> !done.contains(#[trigger] d0[p].0),
            forall|k: u64| #[trigger] done.contains(k) ==> m0.contains_key(k),
            forall|k: u64|
                #[trigger] m0.contains_key(k) && !done.contains(k) ==> exists|p: int|
                    0 <= p < drained@.len() && #[trigger] d0[p].0 == k,
            forall|k: u64|
                #[trigger] stripe_entries(*t).contains_key(k) <==> (done.contains(k) && m0[k].slot is Gauge),
            forall|k: u64| #[trigger] stripe_entries(*t).contains_key(k) ==> stripe_entries(*t)[k] == m0[k],
            ks.no_duplicates(),
            out@.len() == out0.len() + ks.len(),
            forall|j: int| 0 <= j < out0.len() ==> out@[j] == out0[j],
            forall|j: int|
                0 <= j < ks.len() ==> done.contains(#[trigger] ks[j]) && emits(m0[ks[j]]) && out@[out0.len() + j]
                    == emitted(m0[ks[j]]),
            forall|k: u64| #[trigger] done.contains(k) && emits(m0[k]) ==> ks.contains(k),
        decreases drained@.len(),
    {
        let ghost n = drained@.len();
        let ghost dn = drained@;
        let ghost out_prev = out@;
        let ghost ks_prev = ks;
        assert(dn[n - 1] == d0[n - 1]);
        let (k, e) = match drained.pop() {
            Some(x) => x,
            None => {
                proof {
                    assert(false);
                }
                return Ghost(ks);
            },
        };
        assert((k, e) == d0[n - 1]);
        let AggEntry { metric_id, tags_hash, namespace, metric_name, tags, slot } = e;
        match slot {
            AggSlot::Count(mut c) => {
                let v = c.flush();
                out.push(FlushedMetric { namespace, metric_name, tags, value: FlushedValue::Count(v) });
                proof {
                    ks = ks.push(k);
                }
            },
            AggSlot::Gauge(g) => {
                match g.flush() {
                    Some(bits) => {
                        out.push(
                            FlushedMetric {
                                namespace,
                                metric_name,
                                tags: share_tags(&tags),
                                value: FlushedValue::Gauge(bits),
                            },
                        );
                        proof {
                            ks = ks.push(k);
                        }
                    },
                    None => {},
                }
                stripe_insert(
                    t,
                    k,
                    AggEntry { metric_id, tags_hash, namespace, metric_name, tags, slot: AggSlot::Gauge(g) },
                );
            },
            AggSlot::Histogram(h) => {
                if h.count() > 0 {
                    out.push(
                        FlushedMetric {
                            namespace,
                            metric_name,
                            tags,
                            value: FlushedValue::Histogram(h),
                        },
                    );
                    proof {
                        ks = ks.push(k);
                    }
                }
            },
        }
        proof {
            let done_prev = done;
            done = done.insert(k);
            assert(drained@ =~= d0.take(drained@.len() as int));
            assert(!done_prev.contains(k));
            assert forall|p: int| 0 <= p < drained@.len() implies !done.contains(#[trigger] d0[p].0) by {
                assert(d0[p].0 != d0[n - 1].0);
            }
            assert forall|kk: u64|
                #[trigger] m0.contains_key(kk) && !done.contains(kk) implies exists|p: int|
                    0 <= p < drained@.len() && #[trigger] d0[p].0 == kk by {
                let p = choose|p: int| 0 <= p < n && #[trigger] d0[p].0 == kk;
                assert(p != n - 1);
            }
            assert forall|j: int| 0 <= j < out0.len() implies out@[j] == out0[j] by {
                assert(out@[j] == out_prev[j]);
            }
            assert forall|a: int, b: int| 0 <= a < b < ks.len() implies ks[a] != ks[b] by {
                if b == ks_prev.len() {
                    assert(done_prev.contains(ks_prev[a]));
                }
            }
            assert forall|j: int|
                0 <= j < ks.len() implies done.contains(#[trigger] ks[j]) && emits(m0[ks[j]]) && out@[out0.len() + j]
                    == emitted(m0[ks[j]]) by {
                if j < ks_prev.len() {
                    assert(ks[j] == ks_prev[j]);
                    assert(out@[out0.len() + j] == out_prev[out0.len() + j]);
                }
            }
            assert forall|kk: u64| #[trigger] done.contains(kk) && emits(m0[kk]) implies ks.contains(kk) by {
                if kk != k {
                    assert(done_prev.contains(kk));
                    let j = choose|j: int| 0 <= j < ks_prev.len() && ks_prev[j] == kk;
                    assert(ks[j] == kk);
                } else {
                    assert(ks[ks.len() - 1] == k);
                }
            }
        }
    }
    proof {
        assert forall|kk: u64| #[trigger] m0.contains_key(kk) implies done.contains(kk) by {
            if !done.contains(kk) {
                let p = choose|p: int| 0 <= p < drained@.len() && #[trigger] d0[p].0 == kk;
            }
        }
        assert(stripe_entries(*t) =~= gauge_only(m0));
    }
    Ghost(ks)
}

/// Aggregation map split into 64 stripes by the low bits of the key. Callers
/// that share it between threads keep it behind a lock.
pub struct StripedAggMap {
    stripes: Vec<StripeTable>,
}

impl StripedAggMap {
    /// Every stripe holds only keys that belong to it, and finitely many.
    pub closed spec fn wf(&self) -> bool {
        &&& self.stripes@.len() == STRIPE_COUNT
        &&& forall|i: int|
            0 <= i < STRIPE_COUNT ==> (#[trigger] stripe_entries(self.stripes@[i])).dom().finite()
        &&& forall|i: int, k: u64|
            0 <= i < STRIPE_COUNT && #[trigger] stripe_entries(self.stripes@[i]).contains_key(k)
                ==> stripe_of(k) == i
    }

    /// All entries of the map, by combined hash.
    pub closed spec fn entries(&self) -> Map<u64, AggEntry> {
        Map::new(
            |k: u64| stripe_entries(self.stripes@[stripe_of(k)]).contains_key(k),
            |k: u64| stripe_entries(self.stripes@[stripe_of(k)])[k],
        )
    }

    /// An empty map.
    pub fn new() -> (m: Self)
        ensures
            m.wf(),
            m.entries() == Map::<u64, AggEntry>::empty(),
    {
        let mut stripes: Vec<StripeTable> = Vec::new();
        let mut i: usize = 0;
        while i < STRIPE_COUNT
            invariant
                i <= STRIPE_COUNT,
                stripes@.len() == i,
                forall|j: int|
                    0 <= j < i ==> #[trigger] stripe_entries(stripes@[j]) == Map::<
                        u64,
                        AggEntry,
                    >::empty(),
            decreases STRIPE_COUNT - i,
        {
            stripes.push(stripe_new());
            i = i + 1;
        }
        let m = StripedAggMap { stripes };
        assert(m.entries() =~= Map::<u64, AggEntry>::empty());
        m
    }

    /// Take the entry under `key` out of its stripe.
    fn take_entry(&mut self, key: u64) -> (r: Option<AggEntry>)
        requires
            old(self).wf(),
        ensures
            final(self).wf(),
            r == if old(self).entries().contains_key(key) {
                Some(old(self).entries()[key])
            } else {
                None::<AggEntry>
            },
            final(self).entries() == old(self).entries().remove(key),
    {
        let idx = Self::stripe_index(key);
        let r = stripe_remove(&mut self.stripes[idx], key);
        proof {
            assert forall|i: int, k: u64|
                0 <= i < STRIPE_COUNT && #[trigger] stripe_entries(self.stripes@[i]).contains_key(
                    k,
                ) implies stripe_of(k) == i by {
                assert(stripe_entries(old(self).stripes@[i]).contains_key(k));
            }
            assert(self.entries() =~= old(self).entries().remove(key));
        }
        r
    }

    /// Put `entry` under `key` in its stripe.
    fn put_entry(&mut self, key: u64, entry: AggEntry)
        requires
            old(self).wf(),
        ensures
            final(self).wf(),
            final(self).entries() == old(self).entries().insert(key, entry),
    {
        let idx = Self::stripe_index(key);
        stripe_insert(&mut self.stripes[idx], key, entry);
        proof {
            assert forall|i: int, k: u64|
                0 <= i < STRIPE_COUNT && #[trigger] stripe_entries(self.stripes@[i]).contains_key(
                    k,
                ) implies stripe_of(k) == i by {
                if k != key {
                    assert(stripe_entries(old(self).stripes@[i]).contains_key(k));
                }
            }
            assert(self.entries() =~= old(self).entries().insert(key, entry));
        }
    }

    /// Add `delta` to the count of a metric and tag combination. The tag
    /// pairs are made only when the combination is first seen. A key that
    /// already holds another kind of aggregate is left alone.
    pub fn record_count(
        &mut self,
        metric_id: u16,
        metric_name: &'static str,
        namespace: &'static [&'static str],
        tags_hash: u64,
        make_tags: impl FnOnce() -> Vec<(&'static str, String)>,
        delta: i64,
    )
        requires
            old(self).wf(),
            !old(self).entries().contains_key(spec_combine_hash(metric_id, tags_hash)) ==> call_requires(
                make_tags,
                (),
            ),
        ensures
            final(self).wf(),
            count_recorded(
                old(self).entries(),
                final(self).entries(),
                spec_combine_hash(metric_id, tags_hash),
                delta,
            ),
            !old(self).entries().contains_key(spec_combine_hash(metric_id, tags_hash))
                ==> fresh_identity(
                final(self).entries()[spec_combine_hash(metric_id, tags_hash)],
                metric_id,
                tags_hash,
                namespace,
                metric_name,
                make_tags,
            ),
    {
        let key = combine_hash(metric_id, tags_hash);
        match self.take_entry(key) {
            Some(mut e) => {
                match &mut e.slot {
                    AggSlot::Count(c) => c.record(delta),
                    _ => {},
                }
                self.put_entry(key, e);
            },
            None => {
                let mut c = CountSlot::new();
                c.record(delta);
                let pairs = make_tags();
                let e = AggEntry {
                    metric_id,
                    tags_hash,
                    namespace,
                    metric_name,
                    tags: Arc::new(TagsData { pairs }),
                    slot: AggSlot::Count(c),
                };
                self.put_entry(key, e);
            },
        }
        proof {
            assert(self.entries().dom() =~= old(self).entries().dom().insert(key));
        }
    }

    /// Store a gauge reading (the bit pattern of a double) for a metric and
    /// tag combination. The tag pairs are made only when the combination is
    /// first seen. A key that already holds another kind of aggregate is
    /// left alone.
    pub fn record_gauge(
        &mut self,
        metric_id: u16,
        metric_name: &'static str,
        namespace: &'static [&'static str],
        tags_hash: u64,
        make_tags: impl FnOnce() -> Vec<(&'static str, String)>,
        value_bits: u64,
    )
        requires
            old(self).wf(),
            !old(self).entries().contains_key(spec_combine_hash(metric_id, tags_hash)) ==> call_requires(
                make_tags,
                (),
            ),
        ensures
            final(self).wf(),
            ({
                let key = spec_combine_hash(metric_id, tags_hash);
                &&& final(self).entries().dom() == old(self).entries().dom().insert(key)
                &&& forall|k: u64|
                    k != key && #[trigger] old(self).entries().contains_key(k)
                        ==> final(self).entries()[k] == old(self).entries()[k]
                &&& old(self).entries().contains_key(key) ==> gauged(
                    old(self).entries()[key],
                    final(self).entries()[key],
                    value_bits,
                )
                &&& !old(self).entries().contains_key(key) ==> {
                    &&& fresh_identity(
                        final(self).entries()[key],
                        metric_id,
                        tags_hash,
                        namespace,
                        metric_name,
                        make_tags,
                    )
                    &&& final(self).entries()[key].slot matches AggSlot::Gauge(g) && g@ == Some(value_bits)
                }
            }),
    {
        let key = combine_hash(metric_id, tags_hash);
        match self.take_entry(key) {
            Some(mut e) => {
                match &mut e.slot {
                    AggSlot::Gauge(g) => g.record(value_bits),
                    _ => {},
                }
                self.put_entry(key, e);
            },
            None => {
                let mut g = GaugeSlot::new();
                g.record(value_bits);
                let pairs = make_tags();
                let e = AggEntry {
                    metric_id,
                    tags_hash,
                    namespace,
                    metric_name,
                    tags: Arc::new(TagsData { pairs }),
                    slot: AggSlot::Gauge(g),
                };
                self.put_entry(key, e);
            },
        }
        proof {
            assert(self.entries().dom() =~= old(self).entries().dom().insert(key));
        }
    }

    /// Add an observation to the histogram of a metric and tag combination:
    /// the histogram is passed through `observe`. A first-seen combination
    /// starts from the sketch `fresh` and gets its tag pairs from
    /// `make_tags`. A key that already holds another kind of aggregate is
    /// left alone.
    pub fn record_histogram(
        &mut self,
        metric_id: u16,
        metric_name: &'static str,
        namespace: &'static [&'static str],
        tags_hash: u64,
        make_tags: impl FnOnce() -> Vec<(&'static str, String)>,
        fresh: UDDSketch,
        observe: impl FnOnce(UDDSketch) -> UDDSketch,
    )
        requires
            old(self).wf(),
            !old(self).entries().contains_key(spec_combine_hash(metric_id, tags_hash)) ==> call_requires(
                make_tags,
                (),
            ),
            forall|h: UDDSketch| call_requires(observe, (h,)),
        ensures
            final(self).wf(),
            ({
                let key = spec_combine_hash(metric_id, tags_hash);
                &&& final(self).entries().dom() == old(self).entries().dom().insert(key)
                &&& forall|k: u64|
                    k != key && #[trigger] old(self).entries().contains_key(k)
                        ==> final(self).entries()[k] == old(self).entries()[k]
                &&& old(self).entries().contains_key(key) ==> observed(
                    old(self).entries()[key],
                    final(self).entries()[key],
                    observe,
                )
                &&& !old(self).entries().contains_key(key) ==> {
                    &&& fresh_identity(
                        final(self).entries()[key],
                        metric_id,
                        tags_hash,
                        namespace,
                        metric_name,
                        make_tags,
                    )
                    &&& final(self).entries()[key].slot matches AggSlot::Histogram(h)
                        && call_ensures(observe, (fresh,), h)
                }
            }),
    {
        let key = combine_hash(metric_id, tags_hash);
        match self.take_entry(key) {
            Some(e) => {
                let AggEntry { metric_id: id, tags_hash: th, namespace: ns, metric_name: name, tags, slot } = e;
                let slot = match slot {
                    AggSlot::Histogram(h) => AggSlot::Histogram(observe(h)),
                    other => other,
                };
                let e2 = AggEntry {
                    metric_id: id,
                    tags_hash: th,
                    namespace: ns,
                    metric_name: name,
                    tags,
                    slot,
                };
                self.put_entry(key, e2);
            },
            None => {
                let h = observe(fresh);
                let pairs = make_tags();
                let e = AggEntry {
                    metric_id,
                    tags_hash,
                    namespace,
                    metric_name,
                    tags: Arc::new(TagsData { pairs }),
                    slot: AggSlot::Histogram(h),
                };
                self.put_entry(key, e);
            },
        }
        proof {
            assert(self.entries().dom() =~= old(self).entries().dom().insert(key));
        }
    }

    /// Hand out every aggregate that has something to report, and start a
    /// new period: count and histogram entries leave the map, gauge entries
    /// stay (a gauge keeps its value across flushes).
    pub fn flush(&mut self) -> (out: Vec<FlushedMetric>)
        requires
            old(self).wf(),
        ensures
            final(self).wf(),
            final(self).entries() == gauge_only(old(self).entries()),
            flushed_from(out@, old(self).entries()),
    {
        let ghost before = self.entries();
        let ghost s0 = self.stripes@;
        let mut out: Vec<FlushedMetric> = Vec::new();
        let ghost mut ks: Seq<u64> = Seq::empty();
        let mut i: usize = 0;
        while i < STRIPE_COUNT
            invariant
                i <= STRIPE_COUNT,
                s0.len() == STRIPE_COUNT,
                self.stripes@.len() == STRIPE_COUNT,
                forall|j: int| 0 <= j < STRIPE_COUNT ==> (#[trigger] stripe_entries(s0[j])).dom().finite(),
                forall|j: int, k: u64|
                    0 <= j < STRIPE_COUNT && #[trigger] stripe_entries(s0[j]).contains_key(k)
                        ==> stripe_of(k) == j,
                forall|k: u64| #[trigger] before.contains_key(k) == stripe_entries(s0[stripe_of(k)]).contains_key(k),
                forall|k: u64| #[trigger] before.contains_key(k) ==> before[k] == stripe_entries(s0[stripe_of(k)])[k],
                forall|j: int|
                    0 <= j < i ==> #[trigger] stripe_entries(self.stripes@[j]) == gauge_only(
                        stripe_entries(s0[j]),
                    ),
                forall|j: int| i <= j < STRIPE_COUNT ==> #[trigger] self.stripes@[j] == s0[j],
                ks.no_duplicates(),
                ks.len() == out@.len(),
                forall|j: int|
                    0 <= j < ks.len() ==> stripe_of(#[trigger] ks[j]) < i && before.contains_key(
                        ks[j],
                    ) && emits(before[ks[j]]) && out@[j] == emitted(before[ks[j]]),
                forall|k: u64|
                    stripe_of(k) < i && #[trigger] before.contains_key(k) && emits(before[k])
                        ==> ks.contains(k),
            decreases STRIPE_COUNT - i,
        {
            let ghost out_before = out@;
            let ghost ks_before = ks;
            let Ghost(part) = flush_stripe(&mut self.stripes[i], &mut out);
            proof {
                let m0 = stripe_entries(s0[i as int]);
                ks = ks_before + part;
                assert forall|a: int, b: int| 0 <= a < b < ks.len() implies ks[a] != ks[b] by {
                    if b >= ks_before.len() && a < ks_before.len() {
                        assert(stripe_of(ks_before[a]) < i);
                        assert(m0.contains_key(part[b - ks_before.len()]));
                    }
                    if a >= ks_before.len() {
                        assert(part[a - ks_before.len()] != part[b - ks_before.len()]);
                    }
                }
                assert forall|j: int|
                    0 <= j < ks.len() implies stripe_of(#[trigger] ks[j]) < i + 1 && before.contains_key(
                        ks[j],
                    ) && emits(before[ks[j]]) && out@[j] == emitted(before[ks[j]]) by {
                    if j >= ks_before.len() {
                        let q = j - ks_before.len();
                        assert(part[q] == ks[j]);
                        assert(m0.contains_key(part[q]));
                        assert(out@[j] == out@[out_before.len() + q]);
                    } else {
                        assert(out@[j] == out_before[j]);
                    }
                }
                assert forall|k: u64|
                    stripe_of(k) < i + 1 && #[trigger] before.contains_key(k) && emits(before[k])
                        implies ks.contains(k) by {
                    if stripe_of(k) == i {
                        assert(m0.contains_key(k));
                        assert(part.contains(k));
                        let q = choose|q: int| 0 <= q < part.len() && part[q] == k;
                        assert(ks[ks_before.len() + q] == k);
                    } else {
                        let j = choose|j: int| 0 <= j < ks_before.len() && ks_before[j] == k;
                        assert(ks[j] == k);
                    }
                }
            }
            i = i + 1;
        }
        proof {
            assert forall|j: int| 0 <= j < STRIPE_COUNT implies (#[trigger] stripe_entries(self.stripes@[j])).dom().finite() by {
                assert(stripe_entries(self.stripes@[j]).dom() =~= stripe_entries(s0[j]).dom().filter(
                    |k: u64| stripe_entries(s0[j])[k].slot is Gauge));
            }
            assert forall|j: int, k: u64|
                0 <= j < STRIPE_COUNT && #[trigger] stripe_entries(self.stripes@[j]).contains_key(k)
                    implies stripe_of(k) == j by {
                assert(stripe_entries(s0[j]).contains_key(k));
            }
            assert(self.entries() =~= gauge_only(before));
            assert forall|k: u64| #[trigger] before.contains_key(k) && emits(before[k]) implies ks.contains(k) by {
                assert(stripe_of(k) < STRIPE_COUNT);
            }
        }
        out
    }

    fn stripe_index(key: u64) -> (i: usize)
        ensures
            i == stripe_of(key),
            i < STRIPE_COUNT,
    {
        assert(key & 63 == key % 64) by (bit_vector);
        (key & 63) as usize
    }
}

} // verus!
