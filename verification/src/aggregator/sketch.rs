use vstd::prelude::*;

verus! {

/// Bucket key of the quantile sketch. Values are mapped to logarithmic
/// buckets; negative values, zero and positive values are kept apart.
/// `Invalid` is no bucket: it stands past every real key.
#[derive(Clone, Copy, Debug, PartialEq, Eq, Structural, Hash)]
pub enum SketchHashKey {
    Negative(i64),
    Zero,
    Positive(i64),
    Invalid,
}

/// Where a key falls among the four kinds: negatives, zero, positives,
/// then the `Invalid` marker.
pub open spec fn key_class(k: SketchHashKey) -> int {
    match k {
        SketchHashKey::Negative(_) => 0,
        SketchHashKey::Zero => 1,
        SketchHashKey::Positive(_) => 2,
        SketchHashKey::Invalid => 3,
    }
}

/// Position of a key inside its kind. Negative buckets run the other way:
/// a larger index is a more negative value.
pub open spec fn key_offset(k: SketchHashKey) -> int {
    match k {
        SketchHashKey::Negative(x) => -x,
        SketchHashKey::Positive(x) => x as int,
        _ => 0,
    }
}

/// The strict order of bucket keys: by kind, then by position in the kind.
pub open spec fn key_lt(a: SketchHashKey, b: SketchHashKey) -> bool {
    key_class(a) < key_class(b) || (key_class(a) == key_class(b) && key_offset(a) < key_offset(b))
}

pub open spec fn key_le(a: SketchHashKey, b: SketchHashKey) -> bool {
    key_lt(a, b) || a == b
}

/// One compaction step on a bucket index: halve it, rounding up; the
/// largest index stays where it is.
pub open spec fn compact_index(x: i64) -> i64 {
    if x == i64::MAX {
        x
    } else if x > 0 {
        ((x + 1) / 2) as i64
    } else {
        (-((-x) / 2)) as i64
    }
}

/// The key a bucket moves to in one compaction: odd buckets merge with the
/// bucket after them.
pub open spec fn spec_compact_key(k: SketchHashKey) -> SketchHashKey {
    match k {
        SketchHashKey::Negative(x) => SketchHashKey::Negative(compact_index(x)),
        SketchHashKey::Positive(x) => SketchHashKey::Positive(compact_index(x)),
        _ => k,
    }
}

/// `key_lt` is an exact strict total order on keys.
pub proof fn lemma_key_order(a: SketchHashKey, b: SketchHashKey)
    ensures
        key_lt(a, b) ==> !key_lt(b, a),
        !key_lt(a, a),
        key_lt(a, b) || key_lt(b, a) || a == b,
{
}

/// Compaction keeps the order of keys, though it may merge neighbours.
pub proof fn lemma_compact_monotone(a: SketchHashKey, b: SketchHashKey)
    requires
        key_le(a, b),
    ensures
        key_le(spec_compact_key(a), spec_compact_key(b)),
{
}

impl SketchHashKey {
    /// Every key but the `Invalid` marker is a bucket.
    pub fn is_valid(&self) -> (b: bool)
        ensures
            b == !(*self is Invalid),
    {
        !matches!(self, SketchHashKey::Invalid)
    }

    /// The key after one compaction round: odd buckets merge with the bucket
    /// after them.
    pub fn compact_key(&self) -> (k: SketchHashKey)
        ensures
            k == spec_compact_key(*self),
    {
        match *self {
            SketchHashKey::Negative(x) => SketchHashKey::Negative(compact_index_exec(x)),
            SketchHashKey::Positive(x) => SketchHashKey::Positive(compact_index_exec(x)),
            other => other,
        }
    }

    /// Whether `self` comes strictly before `other` in bucket order.
    pub fn less_than(&self, other: &SketchHashKey) -> (b: bool)
        ensures
            b == key_lt(*self, *other),
    {
        match (*self, *other) {
            (SketchHashKey::Negative(a), SketchHashKey::Negative(b)) => a > b,
            (SketchHashKey::Positive(a), SketchHashKey::Positive(b)) => a < b,
            (SketchHashKey::Negative(_), _) => !matches!(other, SketchHashKey::Negative(_)),
            (SketchHashKey::Zero, _) => matches!(
                other,
                SketchHashKey::Positive(_) | SketchHashKey::Invalid
            ),
            (SketchHashKey::Positive(_), _) => matches!(other, SketchHashKey::Invalid),
            (SketchHashKey::Invalid, _) => false,
        }
    }
}

fn compact_index_exec(x: i64) -> (r: i64)
    ensures
        r == compact_index(x),
{
    if x == i64::MAX {
        x
    } else if x > 0 {
        (x + 1) / 2
    } else if x == i64::MIN {
        i64::MIN / 2
    } else {
        -((-x) / 2)
    }
}


// ---------------------------------------------------------------------------
// The bucket table: buckets in increasing key order, each with its count.
// ---------------------------------------------------------------------------

/// Keys strictly increase along the sequence.
pub open spec fn sorted_keys(s: Seq<(SketchHashKey, u64)>) -> bool {
    forall|i: int, j: int| 0 <= i < j < s.len() ==> key_lt(#[trigger] s[i].0, #[trigger] s[j].0)
}

/// Keys never decrease along the sequence.
pub open spec fn nondecreasing_keys(s: Seq<(SketchHashKey, u64)>) -> bool {
    forall|i: int, j: int| 0 <= i < j < s.len() ==> key_le(#[trigger] s[i].0, #[trigger] s[j].0)
}

/// Every entry is a real bucket that holds at least one value.
pub open spec fn real_buckets(s: Seq<(SketchHashKey, u64)>) -> bool {
    forall|i: int| 0 <= i < s.len() ==> !(#[trigger] s[i].0 is Invalid) && s[i].1 > 0
}

/// A well-formed bucket table: real buckets in strictly increasing key order.
pub open spec fn buckets_wf(s: Seq<(SketchHashKey, u64)>) -> bool {
    sorted_keys(s) && real_buckets(s)
}

/// The number of values the buckets hold together.
pub open spec fn total(s: Seq<(SketchHashKey, u64)>) -> nat
    decreases s.len(),
{
    if s.len() == 0 {
        0
    } else {
        total(s.drop_last()) + s.last().1 as nat
    }
}

/// How many entries have a key before `k`: where `k` sits in a sorted table.
pub open spec fn insert_pos(s: Seq<(SketchHashKey, u64)>, k: SketchHashKey) -> int
    decreases s.len(),
{
    if s.len() == 0 {
        0
    } else {
        insert_pos(s.drop_last(), k) + if key_lt(s.last().0, k) { 1int } else { 0int }
    }
}

/// `delta` more values in bucket `k`: the bucket's count grows, or a new
/// bucket is put in its place in key order.
pub open spec fn add_count(s: Seq<(SketchHashKey, u64)>, k: SketchHashKey, delta: u64) -> Seq<
    (SketchHashKey, u64),
> {
    let p = insert_pos(s, k);
    if p < s.len() && s[p].0 == k {
        s.update(p, (k, (s[p].1 + delta) as u64))
    } else {
        s.insert(p, (k, delta))
    }
}

/// Every bucket renamed to the key it moves to in one compaction.
pub open spec fn relabel(s: Seq<(SketchHashKey, u64)>) -> Seq<(SketchHashKey, u64)> {
    s.map_values(|e: (SketchHashKey, u64)| (spec_compact_key(e.0), e.1))
}

/// Neighbouring entries with the same key joined into one, their counts added.
pub open spec fn merge_adjacent(s: Seq<(SketchHashKey, u64)>) -> Seq<(SketchHashKey, u64)>
    decreases s.len(),
{
    if s.len() == 0 {
        s
    } else {
        let r = merge_adjacent(s.drop_last());
        if r.len() > 0 && r.last().0 == s.last().0 {
            r.update(r.len() - 1, (s.last().0, (r.last().1 + s.last().1) as u64))
        } else {
            r.push(s.last())
        }
    }
}

/// The table after one compaction: each bucket moves to its compacted key,
/// and buckets that meet are merged.
pub open spec fn compacted(s: Seq<(SketchHashKey, u64)>) -> Seq<(SketchHashKey, u64)> {
    merge_adjacent(relabel(s))
}

/// The table after `n` compactions.
pub open spec fn compact_n(s: Seq<(SketchHashKey, u64)>, n: nat) -> Seq<(SketchHashKey, u64)>
    decreases n,
{
    if n == 0 {
        s
    } else {
        compacted(compact_n(s, (n - 1) as nat))
    }
}

/// Some number of compactions, no more than `budget`, brings the table down
/// to `max` buckets.
pub open spec fn settles(s: Seq<(SketchHashKey, u64)>, max: nat, budget: nat) -> bool {
    exists|k: nat| k <= budget && #[trigger] compact_n(s, k).len() <= max
}

proof fn lemma_total_take(s: Seq<(SketchHashKey, u64)>, i: int)
    requires
        0 <= i < s.len(),
    ensures
        total(s.take(i + 1)) == total(s.take(i)) + s[i].1,
{
    assert(s.take(i + 1).drop_last() =~= s.take(i));
}

proof fn lemma_total_concat(a: Seq<(SketchHashKey, u64)>, b: Seq<(SketchHashKey, u64)>)
    ensures
        total(a + b) == total(a) + total(b),
    decreases b.len(),
{
    if b.len() > 0 {
        assert((a + b).drop_last() =~= a + b.drop_last());
        lemma_total_concat(a, b.drop_last());
    } else {
        assert(a + b =~= a);
    }
}

proof fn lemma_total_insert(s: Seq<(SketchHashKey, u64)>, p: int, e: (SketchHashKey, u64))
    requires
        0 <= p <= s.len(),
    ensures
        total(s.insert(p, e)) == total(s) + e.1,
{
    assert(s.insert(p, e) =~= s.take(p) + seq![e] + s.skip(p));
    assert(s =~= s.take(p) + s.skip(p));
    lemma_total_concat(s.take(p) + seq![e], s.skip(p));
    lemma_total_concat(s.take(p), seq![e]);
    lemma_total_concat(s.take(p), s.skip(p));
    assert(seq![e].drop_last() =~= Seq::<(SketchHashKey, u64)>::empty());
    assert(total(Seq::<(SketchHashKey, u64)>::empty()) == 0);
    assert(total(seq![e]) == e.1);
}

proof fn lemma_total_update(s: Seq<(SketchHashKey, u64)>, p: int, e: (SketchHashKey, u64))
    requires
        0 <= p < s.len(),
    ensures
        total(s.update(p, e)) + s[p].1 == total(s) + e.1,
{
    assert(s.update(p, e) =~= s.take(p) + seq![e] + s.skip(p + 1));
    assert(s =~= s.take(p) + seq![s[p]] + s.skip(p + 1));
    lemma_total_concat(s.take(p) + seq![e], s.skip(p + 1));
    lemma_total_concat(s.take(p), seq![e]);
    lemma_total_concat(s.take(p) + seq![s[p]], s.skip(p + 1));
    lemma_total_concat(s.take(p), seq![s[p]]);
    assert(seq![e].drop_last() =~= Seq::<(SketchHashKey, u64)>::empty());
    assert(seq![s[p]].drop_last() =~= Seq::<(SketchHashKey, u64)>::empty());
}

/// No single entry holds more than the whole table.
proof fn lemma_entry_le_total(s: Seq<(SketchHashKey, u64)>, i: int)
    requires
        0 <= i < s.len(),
    ensures
        s[i].1 <= total(s),
    decreases s.len(),
{
    if i < s.len() - 1 {
        lemma_entry_le_total(s.drop_last(), i);
    }
}

/// In a sorted table, `insert_pos` splits the keys below `k` from the rest.
proof fn lemma_insert_pos(s: Seq<(SketchHashKey, u64)>, k: SketchHashKey)
    requires
        sorted_keys(s),
    ensures
        0 <= insert_pos(s, k) <= s.len(),
        forall|j: int| 0 <= j < insert_pos(s, k) ==> key_lt(#[trigger] s[j].0, k),
        forall|j: int| insert_pos(s, k) <= j < s.len() ==> !key_lt(#[trigger] s[j].0, k),
    decreases s.len(),
{
    if s.len() > 0 {
        let d = s.drop_last();
        assert(sorted_keys(d)) by {
            assert forall|i: int, j: int| 0 <= i < j < d.len() implies key_lt(
                #[trigger] d[i].0,
                #[trigger] d[j].0,
            ) by {
                assert(key_lt(s[i].0, s[j].0));
            }
        }
        lemma_insert_pos(d, k);
        let p = insert_pos(d, k);
        if key_lt(s.last().0, k) {
            assert forall|j: int| 0 <= j < s.len() implies key_lt(#[trigger] s[j].0, k) by {
                if j < s.len() - 1 {
                    assert(key_lt(s[j].0, s[s.len() - 1].0));
                }
            }
            if p < d.len() {
                assert(key_lt(s[p].0, k));
                assert(d[p] == s[p]);
            }
            assert(insert_pos(s, k) == s.len());
        } else {
            assert(insert_pos(s, k) == p);
            assert forall|j: int| 0 <= j < p implies key_lt(#[trigger] s[j].0, k) by {
                assert(d[j] == s[j]);
            }
            assert forall|j: int| p <= j < s.len() implies !key_lt(#[trigger] s[j].0, k) by {
                if j < d.len() {
                    assert(d[j] == s[j]);
                }
            }
        }
    }
}

/// The scan that stops at the first key not below `k` finds `insert_pos`.
proof fn lemma_insert_pos_unique(s: Seq<(SketchHashKey, u64)>, k: SketchHashKey, i: int)
    requires
        sorted_keys(s),
        0 <= i <= s.len(),
        forall|j: int| 0 <= j < i ==> key_lt(#[trigger] s[j].0, k),
        i == s.len() || !key_lt(s[i].0, k),
    ensures
        insert_pos(s, k) == i,
{
    lemma_insert_pos(s, k);
    let p = insert_pos(s, k);
    if p < i {
        assert(key_lt(s[p].0, k));
    }
    if i < p {
        assert(key_lt(s[i].0, k));
    }
}

/// Adding values to a bucket keeps the table well formed and adds to its total.
pub proof fn lemma_add_count(s: Seq<(SketchHashKey, u64)>, k: SketchHashKey, delta: u64)
    requires
        buckets_wf(s),
        !(k is Invalid),
        delta > 0,
        total(s) + delta <= u64::MAX,
    ensures
        buckets_wf(add_count(s, k, delta)),
        total(add_count(s, k, delta)) == total(s) + delta,
        add_count(s, k, delta).len() <= s.len() + 1,
{
    lemma_insert_pos(s, k);
    let p = insert_pos(s, k);
    let r = add_count(s, k, delta);
    if p < s.len() && s[p].0 == k {
        lemma_entry_le_total(s, p);
        lemma_total_update(s, p, (k, (s[p].1 + delta) as u64));
        assert forall|i: int, j: int| 0 <= i < j < r.len() implies key_lt(
            #[trigger] r[i].0,
            #[trigger] r[j].0,
        ) by {
            assert(key_lt(s[i].0, s[j].0));
        }
    } else {
        lemma_total_insert(s, p, (k, delta));
        assert forall|i: int, j: int| 0 <= i < j < r.len() implies key_lt(
            #[trigger] r[i].0,
            #[trigger] r[j].0,
        ) by {
            if j < p {
                assert(key_lt(s[i].0, s[j].0));
            } else if j == p {
                assert(key_lt(s[i].0, k));
            } else if i == p {
                assert(!key_lt(s[j - 1].0, k));
                lemma_key_order(s[j - 1].0, k);
            } else if i < p {
                assert(key_lt(s[i].0, s[j - 1].0));
            } else {
                assert(key_lt(s[i - 1].0, s[j - 1].0));
            }
        }
    }
}


proof fn lemma_total_push(s: Seq<(SketchHashKey, u64)>, e: (SketchHashKey, u64))
    ensures
        total(s.push(e)) == total(s) + e.1,
{
    assert(s.push(e).drop_last() =~= s);
}

proof fn lemma_relabel(s: Seq<(SketchHashKey, u64)>)
    requires
        buckets_wf(s),
    ensures
        nondecreasing_keys(relabel(s)),
        real_buckets(relabel(s)),
        total(relabel(s)) == total(s),
        relabel(s).len() == s.len(),
    decreases s.len(),
{
    let r = relabel(s);
    assert forall|i: int, j: int| 0 <= i < j < r.len() implies key_le(
        #[trigger] r[i].0,
        #[trigger] r[j].0,
    ) by {
        assert(key_lt(s[i].0, s[j].0));
        lemma_compact_monotone(s[i].0, s[j].0);
    }
    if s.len() > 0 {
        let d = s.drop_last();
        assert(buckets_wf(d)) by {
            assert forall|i: int, j: int| 0 <= i < j < d.len() implies key_lt(
                #[trigger] d[i].0,
                #[trigger] d[j].0,
            ) by {
                assert(key_lt(s[i].0, s[j].0));
            }
            assert forall|i: int| 0 <= i < d.len() implies !(#[trigger] d[i].0 is Invalid)
                && d[i].1 > 0 by {
                assert(d[i] == s[i]);
            }
        }
        lemma_relabel(d);
        assert(r.drop_last() =~= relabel(d));
    }
}

proof fn lemma_merge_adjacent(t: Seq<(SketchHashKey, u64)>)
    requires
        nondecreasing_keys(t),
        real_buckets(t),
        total(t) <= u64::MAX,
    ensures
        buckets_wf(merge_adjacent(t)),
        total(merge_adjacent(t)) == total(t),
        merge_adjacent(t).len() <= t.len(),
        t.len() > 0 ==> merge_adjacent(t).len() > 0 && merge_adjacent(t).last().0 == t.last().0,
    decreases t.len(),
{
    if t.len() > 0 {
        let d = t.drop_last();
        assert(nondecreasing_keys(d)) by {
            assert forall|i: int, j: int| 0 <= i < j < d.len() implies key_le(
                #[trigger] d[i].0,
                #[trigger] d[j].0,
            ) by {
                assert(key_le(t[i].0, t[j].0));
            }
        }
        assert(real_buckets(d)) by {
            assert forall|i: int| 0 <= i < d.len() implies !(#[trigger] d[i].0 is Invalid)
                && d[i].1 > 0 by {
                assert(d[i] == t[i]);
            }
        }
        lemma_merge_adjacent(d);
        let r = merge_adjacent(d);
        let e = t.last();
        assert(e.1 > 0 && !(e.0 is Invalid)) by {
            assert(t[t.len() - 1] == e);
        }
        if r.len() > 0 && r.last().0 == e.0 {
            let last = r.len() - 1;
            lemma_entry_le_total(r, last);
            let ne = (e.0, (r.last().1 + e.1) as u64);
            lemma_total_update(r, last, ne);
            let m = r.update(last, ne);
            assert(m == merge_adjacent(t));
            assert forall|i: int, j: int| 0 <= i < j < m.len() implies key_lt(
                #[trigger] m[i].0,
                #[trigger] m[j].0,
            ) by {
                assert(key_lt(r[i].0, r[j].0));
            }
        } else {
            lemma_total_push(r, e);
            let m = r.push(e);
            assert(m == merge_adjacent(t));
            if r.len() > 0 {
                assert(key_le(t[d.len() - 1].0, t[t.len() - 1].0));
                assert(d[d.len() - 1] == t[d.len() - 1]);
            }
            assert forall|i: int, j: int| 0 <= i < j < m.len() implies key_lt(
                #[trigger] m[i].0,
                #[trigger] m[j].0,
            ) by {
                if j < r.len() {
                    assert(key_lt(r[i].0, r[j].0));
                } else if i < r.len() - 1 {
                    assert(key_lt(r[i].0, r[r.len() - 1].0));
                }
            }
        }
    }
}

/// One compaction keeps the table well formed, keeps every value, and never
/// adds a bucket.
pub proof fn lemma_compacted(s: Seq<(SketchHashKey, u64)>)
    requires
        buckets_wf(s),
        total(s) <= u64::MAX,
    ensures
        buckets_wf(compacted(s)),
        total(compacted(s)) == total(s),
        compacted(s).len() <= s.len(),
{
    lemma_relabel(s);
    lemma_merge_adjacent(relabel(s));
}

/// Any number of compactions keeps the table well formed, keeps every
/// value, and never adds a bucket.
pub proof fn lemma_compact_n(s: Seq<(SketchHashKey, u64)>, n: nat)
    requires
        buckets_wf(s),
        total(s) <= u64::MAX,
    ensures
        buckets_wf(compact_n(s, n)),
        total(compact_n(s, n)) == total(s),
        compact_n(s, n).len() <= s.len(),
    decreases n,
{
    if n > 0 {
        lemma_compact_n(s, (n - 1) as nat);
        lemma_compacted(compact_n(s, (n - 1) as nat));
    }
}

/// How many values the entries with key `k` hold together.
pub open spec fn key_total(s: Seq<(SketchHashKey, u64)>, k: SketchHashKey) -> nat
    decreases s.len(),
{
    if s.len() == 0 {
        0
    } else {
        key_total(s.drop_last(), k) + if s.last().0 == k { s.last().1 as nat } else { 0nat }
    }
}

/// How many values the entries whose key compacts to `k` hold together.
pub open spec fn moved_total(s: Seq<(SketchHashKey, u64)>, k: SketchHashKey) -> nat
    decreases s.len(),
{
    if s.len() == 0 {
        0
    } else {
        moved_total(s.drop_last(), k) + if spec_compact_key(s.last().0) == k {
            s.last().1 as nat
        } else {
            0nat
        }
    }
}

proof fn lemma_key_total_relabel(s: Seq<(SketchHashKey, u64)>, k: SketchHashKey)
    ensures
        key_total(relabel(s), k) == moved_total(s, k),
    decreases s.len(),
{
    if s.len() > 0 {
        assert(relabel(s).drop_last() =~= relabel(s.drop_last()));
        lemma_key_total_relabel(s.drop_last(), k);
    }
}

/// Among real buckets, a key holds values exactly when some entry has it.
proof fn lemma_key_total_present(t: Seq<(SketchHashKey, u64)>, k: SketchHashKey)
    requires
        real_buckets(t),
    ensures
        key_total(t, k) > 0 <==> exists|i: int| 0 <= i < t.len() && #[trigger] t[i].0 == k,
    decreases t.len(),
{
    if t.len() > 0 {
        let d = t.drop_last();
        assert(real_buckets(d)) by {
            assert forall|i: int| 0 <= i < d.len() implies !(#[trigger] d[i].0 is Invalid)
                && d[i].1 > 0 by {
                assert(d[i] == t[i]);
            }
        }
        lemma_key_total_present(d, k);
        assert(t[t.len() - 1].1 > 0);
        if exists|i: int| 0 <= i < t.len() && #[trigger] t[i].0 == k {
            let i = choose|i: int| 0 <= i < t.len() && #[trigger] t[i].0 == k;
            if i < d.len() {
                assert(d[i] == t[i]);
            }
        }
        if exists|i: int| 0 <= i < d.len() && #[trigger] d[i].0 == k {
            let i = choose|i: int| 0 <= i < d.len() && #[trigger] d[i].0 == k;
            assert(t[i] == d[i]);
        }
    }
}

/// In a table with distinct keys, a bucket's key holds just that bucket's count.
proof fn lemma_key_total_sorted(m: Seq<(SketchHashKey, u64)>, i: int)
    requires
        sorted_keys(m),
        0 <= i < m.len(),
    ensures
        key_total(m, m[i].0) == m[i].1,
    decreases m.len(),
{
    let d = m.drop_last();
    assert(sorted_keys(d)) by {
        assert forall|a: int, b: int| 0 <= a < b < d.len() implies key_lt(
            #[trigger] d[a].0,
            #[trigger] d[b].0,
        ) by {
            assert(key_lt(m[a].0, m[b].0));
        }
    }
    if i < m.len() - 1 {
        assert(d[i] == m[i]);
        lemma_key_total_sorted(d, i);
        assert(key_lt(m[i].0, m[m.len() - 1].0));
        lemma_key_order(m[i].0, m[m.len() - 1].0);
    } else {
        lemma_key_total_absent(d, m[i].0);
    }
}

/// Keys that lie past every entry of a sorted table hold nothing there.
proof fn lemma_key_total_absent(d: Seq<(SketchHashKey, u64)>, k: SketchHashKey)
    requires
        forall|a: int| 0 <= a < d.len() ==> key_lt(#[trigger] d[a].0, k),
    ensures
        key_total(d, k) == 0,
    decreases d.len(),
{
    if d.len() > 0 {
        let e = d.drop_last();
        assert forall|a: int| 0 <= a < e.len() implies key_lt(#[trigger] e[a].0, k) by {
            assert(e[a] == d[a]);
        }
        lemma_key_total_absent(e, k);
        assert(key_lt(d[d.len() - 1].0, k));
        lemma_key_order(d[d.len() - 1].0, k);
    }
}

proof fn lemma_key_total_merge_adjacent(t: Seq<(SketchHashKey, u64)>, k: SketchHashKey)
    requires
        nondecreasing_keys(t),
        real_buckets(t),
        total(t) <= u64::MAX,
    ensures
        key_total(merge_adjacent(t), k) == key_total(t, k),
    decreases t.len(),
{
    if t.len() > 0 {
        let d = t.drop_last();
        assert(nondecreasing_keys(d)) by {
            assert forall|i: int, j: int| 0 <= i < j < d.len() implies key_le(
                #[trigger] d[i].0,
                #[trigger] d[j].0,
            ) by {
                assert(key_le(t[i].0, t[j].0));
            }
        }
        assert(real_buckets(d)) by {
            assert forall|i: int| 0 <= i < d.len() implies !(#[trigger] d[i].0 is Invalid)
                && d[i].1 > 0 by {
                assert(d[i] == t[i]);
            }
        }
        lemma_total_push(d, t.last());
        assert(d.push(t.last()) =~= t);
        lemma_merge_adjacent(d);
        lemma_key_total_merge_adjacent(d, k);
        let r = merge_adjacent(d);
        let e = t.last();
        if r.len() > 0 && r.last().0 == e.0 {
            let last = r.len() - 1;
            lemma_entry_le_total(r, last);
            let ne = (e.0, (r.last().1 + e.1) as u64);
            assert(r.update(last, ne).drop_last() =~= r.drop_last());
        } else {
            assert(r.push(e).drop_last() =~= r);
        }
    }
}

/// The per-bucket law of one compaction: the buckets afterwards are exactly
/// the compacted keys of the buckets before, and each holds the sum of the
/// counts of the buckets that moved into it.
pub proof fn lemma_compacted_per_key(s: Seq<(SketchHashKey, u64)>, k: SketchHashKey)
    requires
        buckets_wf(s),
        total(s) <= u64::MAX,
    ensures
        key_total(compacted(s), k) == moved_total(s, k),
        (exists|i: int| 0 <= i < compacted(s).len() && #[trigger] compacted(s)[i].0 == k) <==> (
        exists|j: int| 0 <= j < s.len() && #[trigger] spec_compact_key(s[j].0) == k),
        forall|i: int|
            0 <= i < compacted(s).len() && #[trigger] compacted(s)[i].0 == k ==> compacted(s)[i].1
                == moved_total(s, k),
{
    let rl = relabel(s);
    let c = compacted(s);
    lemma_relabel(s);
    lemma_compacted(s);
    lemma_key_total_relabel(s, k);
    lemma_key_total_merge_adjacent(rl, k);
    lemma_key_total_present(c, k);
    lemma_key_total_present(rl, k);
    assert forall|i: int| 0 <= i < c.len() && #[trigger] c[i].0 == k implies c[i].1 == moved_total(
        s,
        k,
    ) by {
        lemma_key_total_sorted(c, i);
    }
    if exists|i: int| 0 <= i < rl.len() && #[trigger] rl[i].0 == k {
        let i = choose|i: int| 0 <= i < rl.len() && #[trigger] rl[i].0 == k;
        assert(spec_compact_key(s[i].0) == k);
    }
    if exists|j: int| 0 <= j < s.len() && #[trigger] spec_compact_key(s[j].0) == k {
        let j = choose|j: int| 0 <= j < s.len() && #[trigger] spec_compact_key(s[j].0) == k;
        assert(rl[j].0 == k);
    }
}


// ---------------------------------------------------------------------------
// Compaction always settles when there is room for seven buckets
// ---------------------------------------------------------------------------

/// A bucket index after `n` compaction steps.
pub open spec fn compact_index_n(x: i64, n: nat) -> i64
    decreases n,
{
    if n == 0 {
        x
    } else {
        compact_index(compact_index_n(x, (n - 1) as nat))
    }
}

/// A key after `n` compaction steps.
pub open spec fn compact_key_n(k: SketchHashKey, n: nat) -> SketchHashKey
    decreases n,
{
    if n == 0 {
        k
    } else {
        spec_compact_key(compact_key_n(k, (n - 1) as nat))
    }
}

/// A key that compaction no longer moves: within its kind, index 0, 1 or
/// the largest index.
pub open spec fn settled_key(k: SketchHashKey) -> bool {
    match k {
        SketchHashKey::Negative(x) => x == 0 || x == 1 || x == i64::MAX,
        SketchHashKey::Positive(x) => x == 0 || x == 1 || x == i64::MAX,
        _ => true,
    }
}

/// The place of a settled key among the seven settled real keys.
spec fn settled_rank(k: SketchHashKey) -> int {
    match k {
        SketchHashKey::Negative(x) => if x == i64::MAX { 0 } else if x == 1 { 1 } else { 2 },
        SketchHashKey::Zero => 3,
        SketchHashKey::Positive(x) => if x == 0 { 4 } else if x == 1 { 5 } else { 6 },
        SketchHashKey::Invalid => 7,
    }
}

proof fn lemma_index_positive(x: i64, n: nat)
    requires
        0 < x < i64::MAX,
    ensures
        0 < compact_index_n(x, n) < i64::MAX,
        compact_index_n(x, n) - 1 == (x - 1) / (vstd::arithmetic::power2::pow2(n) as int),
    decreases n,
{
    vstd::arithmetic::power2::lemma_pow2_pos(n);
    if n == 0 {
        vstd::arithmetic::power2::lemma2_to64();
    } else {
        let m = (n - 1) as nat;
        lemma_index_positive(x, m);
        vstd::arithmetic::power2::lemma_pow2_pos(m);
        vstd::arithmetic::power2::lemma_pow2_unfold(n);
        let p = vstd::arithmetic::power2::pow2(m) as int;
        let y = compact_index_n(x, m);
        assert(compact_index_n(x, n) - 1 == (y - 1) / 2);
        vstd::arithmetic::div_mod::lemma_div_denominator(x - 1, p, 2);
        assert(p * 2 == vstd::arithmetic::power2::pow2(n));
    }
}

proof fn lemma_index_nonpositive(x: i64, n: nat)
    requires
        x <= 0,
    ensures
        compact_index_n(x, n) <= 0,
        -compact_index_n(x, n) == (-x) / (vstd::arithmetic::power2::pow2(n) as int),
    decreases n,
{
    vstd::arithmetic::power2::lemma_pow2_pos(n);
    if n == 0 {
        vstd::arithmetic::power2::lemma2_to64();
    } else {
        let m = (n - 1) as nat;
        lemma_index_nonpositive(x, m);
        vstd::arithmetic::power2::lemma_pow2_pos(m);
        vstd::arithmetic::power2::lemma_pow2_unfold(n);
        let p = vstd::arithmetic::power2::pow2(m) as int;
        vstd::arithmetic::div_mod::lemma_div_denominator(-x, p, 2);
        assert(p * 2 == vstd::arithmetic::power2::pow2(n));
    }
}

proof fn lemma_index_settled_fixed(x: i64, n: nat)
    requires
        x == 0 || x == 1 || x == i64::MAX,
    ensures
        compact_index_n(x, n) == x,
    decreases n,
{
    if n > 0 {
        lemma_index_settled_fixed(x, (n - 1) as nat);
    }
}

proof fn lemma_index_shift(x: i64, a: nat, b: nat)
    ensures
        compact_index_n(x, a + b) == compact_index_n(compact_index_n(x, a), b),
    decreases b,
{
    if b > 0 {
        lemma_index_shift(x, a, (b - 1) as nat);
        assert((a + b - 1) as nat == a + (b - 1) as nat);
    }
}

/// Sixty-four compaction steps take every index to 0, 1 or the largest
/// index.
proof fn lemma_index_settles(x: i64)
    ensures
        compact_index_n(x, 64) == 0 || compact_index_n(x, 64) == 1 || compact_index_n(x, 64)
            == i64::MAX,
{
    vstd::arithmetic::power2::lemma2_to64_rest();
    if x == i64::MAX {
        lemma_index_settled_fixed(x, 64);
    } else if x > 0 {
        lemma_index_positive(x, 63);
        assert((x - 1) / 0x8000000000000000int == 0);
        lemma_index_shift(x, 63, 1);
        assert(compact_index_n(compact_index_n(x, 63), 1) == compact_index(compact_index_n(x, 63)));
    } else {
        lemma_index_nonpositive(x, 64);
        assert((-x) / 0x10000000000000000int == 0);
    }
}

proof fn lemma_key_n(k: SketchHashKey, n: nat)
    ensures
        compact_key_n(k, n) == match k {
            SketchHashKey::Negative(x) => SketchHashKey::Negative(compact_index_n(x, n)),
            SketchHashKey::Positive(x) => SketchHashKey::Positive(compact_index_n(x, n)),
            _ => k,
        },
    decreases n,
{
    if n > 0 {
        lemma_key_n(k, (n - 1) as nat);
    }
}

/// Every key of a merged table is a key of the table it was merged from.
proof fn lemma_merge_adjacent_keys(t: Seq<(SketchHashKey, u64)>)
    ensures
        forall|i: int|
            0 <= i < merge_adjacent(t).len() ==> exists|j: int|
                0 <= j < t.len() && #[trigger] merge_adjacent(t)[i].0 == t[j].0,
    decreases t.len(),
{
    if t.len() > 0 {
        let d = t.drop_last();
        lemma_merge_adjacent_keys(d);
        let r = merge_adjacent(d);
        let m = merge_adjacent(t);
        assert forall|i: int| 0 <= i < m.len() implies exists|j: int|
            0 <= j < t.len() && #[trigger] m[i].0 == t[j].0 by {
            if i < r.len() && !(i == r.len() - 1 && r.last().0 == t.last().0) {
                assert(m[i] == r[i]);
                let j = choose|j: int| 0 <= j < d.len() && r[i].0 == d[j].0;
                assert(d[j] == t[j]);
            } else {
                assert(m[i].0 == t[t.len() - 1].0);
            }
        }
    }
}

/// Every key after `n` compactions is a key of the starting table moved
/// `n` steps.
proof fn lemma_compact_n_keys(s: Seq<(SketchHashKey, u64)>, n: nat)
    ensures
        forall|i: int|
            0 <= i < compact_n(s, n).len() ==> exists|j: int|
                0 <= j < s.len() && #[trigger] compact_n(s, n)[i].0 == compact_key_n(s[j].0, n),
    decreases n,
{
    if n > 0 {
        let m = (n - 1) as nat;
        lemma_compact_n_keys(s, m);
        let prev = compact_n(s, m);
        let r = relabel(prev);
        lemma_merge_adjacent_keys(r);
        let c = compact_n(s, n);
        assert(c == merge_adjacent(r));
        assert forall|i: int| 0 <= i < c.len() implies exists|j: int|
            0 <= j < s.len() && #[trigger] c[i].0 == compact_key_n(s[j].0, n) by {
            let j1 = choose|j: int| 0 <= j < r.len() && c[i].0 == r[j].0;
            assert(r[j1].0 == spec_compact_key(prev[j1].0));
            let j2 = choose|j: int| 0 <= j < s.len() && prev[j1].0 == compact_key_n(s[j].0, m);
            assert(c[i].0 == compact_key_n(s[j2].0, n));
        }
    }
}

proof fn lemma_settled_ranks(t: Seq<(SketchHashKey, u64)>)
    requires
        buckets_wf(t),
        forall|i: int| 0 <= i < t.len() ==> settled_key(#[trigger] t[i].0),
    ensures
        forall|i: int| 0 <= i < t.len() ==> i <= #[trigger] settled_rank(t[i].0) <= 6,
    decreases t.len(),
{
    if t.len() > 0 {
        let d = t.drop_last();
        assert forall|i: int, j: int| 0 <= i < j < d.len() implies key_lt(
            #[trigger] d[i].0,
            #[trigger] d[j].0,
        ) by {
            assert(key_lt(t[i].0, t[j].0));
        }
        assert forall|i: int| 0 <= i < d.len() implies !(#[trigger] d[i].0 is Invalid) && d[i].1
            > 0 by {
            assert(d[i] == t[i]);
        }
        assert forall|i: int| 0 <= i < d.len() implies settled_key(#[trigger] d[i].0) by {
            assert(d[i] == t[i]);
        }
        lemma_settled_ranks(d);
        let l = t.len() - 1;
        assert(settled_key(t[l].0) && !(t[l].0 is Invalid));
        if l > 0 {
            assert(key_lt(t[l - 1].0, t[l].0));
            assert(d[l - 1] == t[l - 1]);
            assert(settled_rank(t[l - 1].0) >= l - 1);
            assert(settled_key(t[l - 1].0));
        }
        assert forall|i: int| 0 <= i < t.len() implies i <= #[trigger] settled_rank(t[i].0) <= 6 by {
            if i < l {
                assert(d[i] == t[i]);
            }
        }
    }
}

/// After sixty-four compactions every key is settled.
proof fn lemma_keys_settled_after_64(s: Seq<(SketchHashKey, u64)>)
    ensures
        forall|i: int| 0 <= i < compact_n(s, 64).len() ==> settled_key(#[trigger] compact_n(s, 64)[i].0),
{
    let t = compact_n(s, 64);
    lemma_compact_n_keys(s, 64);
    assert forall|i: int| 0 <= i < t.len() implies settled_key(#[trigger] t[i].0) by {
        let j = choose|j: int| 0 <= j < s.len() && t[i].0 == compact_key_n(s[j].0, 64);
        lemma_key_n(s[j].0, 64);
        match s[j].0 {
            SketchHashKey::Negative(x) => lemma_index_settles(x),
            SketchHashKey::Positive(x) => lemma_index_settles(x),
            _ => {},
        }
    }
}

/// With room for at least seven buckets, compacting always brings a well
/// formed table under the limit within sixty-four rounds: every bucket
/// index halves towards 0 or 1, so at most seven keys remain.
pub proof fn lemma_room_settles(s: Seq<(SketchHashKey, u64)>, max: nat, budget: nat)
    requires
        buckets_wf(s),
        total(s) <= u64::MAX,
        max >= 7,
        budget >= 64,
    ensures
        settles(s, max, budget),
{
    let t = compact_n(s, 64);
    lemma_compact_n(s, 64);
    lemma_keys_settled_after_64(s);
    lemma_settled_ranks(t);
    if t.len() > 7 {
        assert(settled_rank(t[7].0) <= 6);
    }
    assert(compact_n(s, 64).len() <= max);
}

proof fn lemma_merge_adjacent_sorted(t: Seq<(SketchHashKey, u64)>)
    requires
        sorted_keys(t),
    ensures
        merge_adjacent(t) == t,
    decreases t.len(),
{
    if t.len() > 0 {
        let d = t.drop_last();
        assert(sorted_keys(d)) by {
            assert forall|i: int, j: int| 0 <= i < j < d.len() implies key_lt(#[trigger] d[i].0, #[trigger] d[j].0) by {
                assert(key_lt(t[i].0, t[j].0));
            }
        }
        lemma_merge_adjacent_sorted(d);
        if d.len() > 0 {
            assert(key_lt(t[d.len() - 1].0, t[t.len() - 1].0));
            lemma_key_order(t[d.len() - 1].0, t[t.len() - 1].0);
            assert(d.last() == t[d.len() - 1]);
        }
        assert(d.push(t.last()) =~= t);
    }
}

/// A well formed table whose keys are all settled is left as it is by a
/// compaction.
proof fn lemma_settled_fixed(t: Seq<(SketchHashKey, u64)>)
    requires
        buckets_wf(t),
        forall|i: int| 0 <= i < t.len() ==> settled_key(#[trigger] t[i].0),
    ensures
        compacted(t) == t,
{
    assert(relabel(t) =~= t) by {
        assert forall|i: int| 0 <= i < t.len() implies #[trigger] relabel(t)[i] == t[i] by {
            assert(settled_key(t[i].0));
        }
    }
    lemma_merge_adjacent_sorted(t);
}

/// Past sixty-four rounds, compaction changes nothing more.
proof fn lemma_compact_past_64(s: Seq<(SketchHashKey, u64)>, j: nat)
    requires
        buckets_wf(s),
        total(s) <= u64::MAX,
    ensures
        compact_n(s, 64 + j) == compact_n(s, 64),
    decreases j,
{
    if j > 0 {
        lemma_compact_past_64(s, (j - 1) as nat);
        lemma_compact_n(s, 64);
        lemma_keys_settled_after_64(s);
        lemma_settled_fixed(compact_n(s, 64));
        assert(compact_n(s, 64 + j) == compacted(compact_n(s, (64 + j - 1) as nat)));
        assert((64 + j - 1) as nat == 64 + (j - 1) as nat);
    }
}

// ---------------------------------------------------------------------------
// Executable bucket table
// ---------------------------------------------------------------------------

/// Ordered table of `SketchHashKey -> count`, walked in increasing key order.
pub struct SketchHashMap {
    entries: Vec<(SketchHashKey, u64)>,
}

impl View for SketchHashMap {
    type V = Seq<(SketchHashKey, u64)>;

    closed spec fn view(&self) -> Seq<(SketchHashKey, u64)> {
        self.entries@
    }
}

impl Clone for SketchHashMap {
    fn clone(&self) -> (c: Self)
        ensures
            c@ == self@,
    {
        let n = self.entries.len();
        let mut entries: Vec<(SketchHashKey, u64)> = Vec::new();
        let mut i: usize = 0;
        while i < n
            invariant
                n == self.entries@.len(),
                i <= n,
                entries@ =~= self.entries@.take(i as int),
            decreases n - i,
        {
            entries.push(self.entries[i]);
            i = i + 1;
        }
        SketchHashMap { entries }
    }
}

impl SketchHashMap {
    /// An empty table.
    pub fn new() -> (m: Self)
        ensures
            m@ == Seq::<(SketchHashKey, u64)>::empty(),
    {
        SketchHashMap { entries: Vec::new() }
    }

    /// The number of buckets.
    pub fn len(&self) -> (n: usize)
        ensures
            n == self@.len(),
    {
        self.entries.len()
    }

    /// The bucket at position `i` in key order, with its count.
    pub fn get(&self, i: usize) -> (e: (SketchHashKey, u64))
        requires
            i < self@.len(),
        ensures
            e == self@[i as int],
    {
        self.entries[i]
    }

    /// Add `delta` values to bucket `key`, creating the bucket in its place
    /// in key order if it is new.
    pub fn add(&mut self, key: SketchHashKey, delta: u64)
        requires
            buckets_wf(old(self)@),
            !(key is Invalid),
            delta > 0,
            total(old(self)@) + delta <= u64::MAX,
        ensures
            final(self)@ == add_count(old(self)@, key, delta),
            buckets_wf(final(self)@),
            total(final(self)@) == total(old(self)@) + delta,
    {
        proof {
            lemma_add_count(self@, key, delta);
        }
        let n = self.entries.len();
        let mut i: usize = 0;
        while i < n && self.entries[i].0.less_than(&key)
            invariant
                n == self.entries@.len(),
                i <= n,
                forall|j: int| 0 <= j < i ==> key_lt(#[trigger] self.entries@[j].0, key),
            decreases n - i,
        {
            i = i + 1;
        }
        proof {
            lemma_insert_pos_unique(self@, key, i as int);
        }
        if i < n && self.entries[i].0 == key {
            let c = self.entries[i].1;
            proof {
                lemma_entry_le_total(self@, i as int);
            }
            self.entries.set(i, (key, c + delta));
        } else {
            self.entries.insert(i, (key, delta));
        }
    }

    /// One more value in bucket `key`.
    pub fn increment(&mut self, key: SketchHashKey)
        requires
            buckets_wf(old(self)@),
            !(key is Invalid),
            total(old(self)@) < u64::MAX,
        ensures
            final(self)@ == add_count(old(self)@, key, 1),
            buckets_wf(final(self)@),
            total(final(self)@) == total(old(self)@) + 1,
    {
        self.add(key, 1);
    }

    /// Move every bucket to its compacted key, merging buckets that meet.
    pub fn compact(&mut self)
        requires
            buckets_wf(old(self)@),
            total(old(self)@) <= u64::MAX,
        ensures
            final(self)@ == compacted(old(self)@),
            buckets_wf(final(self)@),
            total(final(self)@) == total(old(self)@),
            final(self)@.len() <= old(self)@.len(),
    {
        let ghost src = self@;
        let ghost rl = relabel(src);
        proof {
            lemma_compacted(src);
            lemma_relabel(src);
        }
        let n = self.entries.len();
        let mut out: Vec<(SketchHashKey, u64)> = Vec::new();
        let mut i: usize = 0;
        while i < n
            invariant
                n == self.entries@.len(),
                self.entries@ == src,
                rl == relabel(src),
                rl.len() == n,
                nondecreasing_keys(rl),
                real_buckets(rl),
                total(rl) <= u64::MAX,
                i <= n,
                out@ == merge_adjacent(rl.take(i as int)),
            decreases n - i,
        {
            let (k, c) = self.entries[i];
            let nk = k.compact_key();
            assert(rl[i as int] == (nk, c));
            let ghost t = rl.take(i as int + 1);
            assert(t.drop_last() =~= rl.take(i as int));
            assert(t.last() == (nk, c));
            proof {
                assert(nondecreasing_keys(t)) by {
                    assert forall|a: int, b: int| 0 <= a < b < t.len() implies key_le(
                        #[trigger] t[a].0,
                        #[trigger] t[b].0,
                    ) by {
                        assert(key_le(rl[a].0, rl[b].0));
                    }
                }
                assert(real_buckets(t)) by {
                    assert forall|a: int| 0 <= a < t.len() implies !(#[trigger] t[a].0 is Invalid)
                        && t[a].1 > 0 by {
                        assert(t[a] == rl[a]);
                    }
                }
                assert(rl =~= t + rl.skip(i as int + 1));
                lemma_total_concat(t, rl.skip(i as int + 1));
                lemma_merge_adjacent(t.drop_last());
                lemma_merge_adjacent(t);
            }
            let m = out.len();
            if m > 0 && out[m - 1].0 == nk {
                let prev = out[m - 1].1;
                proof {
                    lemma_entry_le_total(out@, m - 1);
                    lemma_total_take(t, i as int);
                    assert(t.take(i as int) =~= t.drop_last());
                    assert(t.take(i as int + 1) =~= t);
                }
                out.set(m - 1, (nk, prev + c));
            } else {
                out.push((nk, c));
            }
            i = i + 1;
        }
        assert(rl.take(n as int) =~= rl);
        self.entries = out;
    }

    /// Walk the buckets in increasing key order.
    pub fn iter(&self) -> (it: SketchHashIterator<'_>)
        ensures
            it.remaining() == self@,
    {
        SketchHashIterator { entries: &self.entries, pos: 0 }
    }
}

/// Walk over `(SketchHashKey, count)` pairs in increasing key order.
pub struct SketchHashIterator<'a> {
    entries: &'a Vec<(SketchHashKey, u64)>,
    pos: usize,
}

impl<'a> SketchHashIterator<'a> {
    /// The pairs the walk has still to hand out, in order.
    pub closed spec fn remaining(&self) -> Seq<(SketchHashKey, u64)> {
        if self.pos <= self.entries@.len() {
            self.entries@.skip(self.pos as int)
        } else {
            Seq::empty()
        }
    }

    /// The next pair in key order, or `None` once every bucket was handed out.
    pub fn next(&mut self) -> (r: Option<(SketchHashKey, u64)>)
        ensures
            old(self).remaining().len() == 0 ==> r is None && final(self).remaining() == old(
                self,
            ).remaining(),
            old(self).remaining().len() > 0 ==> r == Some(old(self).remaining()[0])
                && final(self).remaining() == old(self).remaining().drop_first(),
    {
        if self.pos < self.entries.len() {
            let e = self.entries[self.pos];
            assert(self.entries@.skip(self.pos as int)[0] == e);
            self.pos = self.pos + 1;
            assert(self.entries@.skip(self.pos as int) =~= self.entries@.skip(
                self.pos - 1,
            ).drop_first());
            Some(e)
        } else {
            None
        }
    }
}


// ---------------------------------------------------------------------------
// Merging tables and reading ranks
// ---------------------------------------------------------------------------

/// Every bucket of `o`, in order, added into `s`.
pub open spec fn add_all(s: Seq<(SketchHashKey, u64)>, o: Seq<(SketchHashKey, u64)>) -> Seq<
    (SketchHashKey, u64),
>
    decreases o.len(),
{
    if o.len() == 0 {
        s
    } else {
        add_count(add_all(s, o.drop_last()), o.last().0, o.last().1)
    }
}

/// Two tables brought to the same compaction level (the less compacted one
/// is compacted until it catches up), then added together.
pub open spec fn merge_tables(
    a: Seq<(SketchHashKey, u64)>,
    a_level: nat,
    b: Seq<(SketchHashKey, u64)>,
    b_level: nat,
) -> Seq<(SketchHashKey, u64)> {
    if a_level >= b_level {
        add_all(a, compact_n(b, (a_level - b_level) as nat))
    } else {
        add_all(compact_n(a, (b_level - a_level) as nat), b)
    }
}

/// The position of the bucket that holds the value of rank `rank`: walking
/// in key order and counting values, the first bucket where the count
/// reaches `rank`.
pub open spec fn rank_position(s: Seq<(SketchHashKey, u64)>, rank: int) -> int
    decreases s.len(),
{
    if s.len() == 0 || rank <= s[0].1 {
        0
    } else {
        1 + rank_position(s.drop_first(), rank - s[0].1)
    }
}

pub proof fn lemma_add_all(s: Seq<(SketchHashKey, u64)>, o: Seq<(SketchHashKey, u64)>)
    requires
        buckets_wf(s),
        real_buckets(o),
        total(s) + total(o) <= u64::MAX,
    ensures
        buckets_wf(add_all(s, o)),
        total(add_all(s, o)) == total(s) + total(o),
    decreases o.len(),
{
    if o.len() > 0 {
        let d = o.drop_last();
        assert(real_buckets(d)) by {
            assert forall|i: int| 0 <= i < d.len() implies !(#[trigger] d[i].0 is Invalid)
                && d[i].1 > 0 by {
                assert(d[i] == o[i]);
            }
        }
        lemma_add_all(s, d);
        assert(o[o.len() - 1] == o.last());
        lemma_add_count(add_all(s, d), o.last().0, o.last().1);
    }
}

proof fn lemma_rank_step(s: Seq<(SketchHashKey, u64)>, i: int, rem: int)
    requires
        0 <= i < s.len(),
        rem > s[i].1,
    ensures
        rank_position(s.skip(i), rem) == 1 + rank_position(s.skip(i + 1), rem - s[i].1),
{
    assert(s.skip(i).drop_first() =~= s.skip(i + 1));
    assert(s.skip(i)[0] == s[i]);
}

// ---------------------------------------------------------------------------
// The integer core of the quantile sketch
// ---------------------------------------------------------------------------

/// The counting part of an approximate quantile sketch: logarithmic buckets,
/// how often they were compacted, and how many values were added.
///
/// When a value lands in a new bucket and there are more than `max_buckets`
/// buckets, buckets are compacted (neighbours merged) until they fit again.
pub struct UddCore {
    buckets: SketchHashMap,
    compactions: u32,
    max_buckets: u64,
    num_values: u64,
    zero_count: u64,
}

/// Whether compacting `table` brings it down to `max` buckets within
/// `budget` rounds. Rounds past the sixty-fourth change nothing, so at most
/// sixty-four are tried, on a copy.
pub fn settles_within(table: &SketchHashMap, max: u64, budget: u32) -> (r: bool)
    requires
        buckets_wf(table@),
        total(table@) <= u64::MAX,
    ensures
        r == settles(table@, max as nat, budget as nat),
{
    let ghost s = table@;
    let mut t = table.clone();
    let mut k: u32 = 0;
    proof {
        lemma_compact_n(s, 0);
    }
    loop
        invariant
            s == table@,
            buckets_wf(s),
            total(s) <= u64::MAX,
            k <= budget,
            k <= 64,
            t@ == compact_n(s, k as nat),
            buckets_wf(t@),
            total(t@) == total(s),
            forall|j: nat| j < k ==> #[trigger] compact_n(s, j).len() > max,
        decreases 64 - k,
    {
        if (t.len() as u64) <= max {
            assert(compact_n(s, k as nat).len() <= max);
            return true;
        }
        if k == budget || k == 64 {
            proof {
                assert forall|j: nat| j <= budget implies #[trigger] compact_n(s, j).len() > max by {
                    if j > 64 {
                        lemma_compact_past_64(s, (j - 64) as nat);
                        assert(64 + (j - 64) as nat == j);
                    } else if j == k {
                    }
                }
            }
            return false;
        }
        t.compact();
        proof {
            assert(compact_n(s, (k + 1) as nat) == compacted(compact_n(s, k as nat)));
        }
        k = k + 1;
    }
}

fn compacted_copy(table: &SketchHashMap, rounds: u32) -> (t: SketchHashMap)
    requires
        buckets_wf(table@),
        total(table@) <= u64::MAX,
    ensures
        t@ == compact_n(table@, rounds as nat),
        buckets_wf(t@),
        total(t@) == total(table@),
{
    let ghost s = table@;
    let mut t = table.clone();
    let mut k: u32 = 0;
    proof {
        lemma_compact_n(s, 0);
    }
    while k < rounds
        invariant
            s == table@,
            buckets_wf(s),
            total(s) <= u64::MAX,
            k <= rounds,
            t@ == compact_n(s, k as nat),
            buckets_wf(t@),
            total(t@) == total(s),
        decreases rounds - k,
    {
        t.compact();
        proof {
            assert(compact_n(s, (k + 1) as nat) == compacted(compact_n(s, k as nat)));
        }
        k = k + 1;
    }
    t
}

fn added_copy(a: &SketchHashMap, b: &SketchHashMap) -> (t: SketchHashMap)
    requires
        buckets_wf(a@),
        buckets_wf(b@),
        total(a@) + total(b@) <= u64::MAX,
    ensures
        t@ == add_all(a@, b@),
        buckets_wf(t@),
        total(t@) == total(a@) + total(b@),
{
    let ghost sa = a@;
    let ghost sb = b@;
    let mut t = a.clone();
    let n = b.len();
    let mut i: usize = 0;
    while i < n
        invariant
            sa == a@,
            sb == b@,
            n == sb.len(),
            buckets_wf(sa),
            buckets_wf(sb),
            total(sa) + total(sb) <= u64::MAX,
            i <= n,
            t@ == add_all(sa, sb.take(i as int)),
            buckets_wf(t@),
            total(t@) == total(sa) + total(sb.take(i as int)),
        decreases n - i,
    {
        let (k, c) = b.get(i);
        proof {
            let tk = sb.take(i as int + 1);
            assert(tk.drop_last() =~= sb.take(i as int));
            assert(tk.last() == sb[i as int]);
            lemma_total_take(sb, i as int);
            assert(sb =~= tk + sb.skip(i as int + 1));
            lemma_total_concat(tk, sb.skip(i as int + 1));
        }
        t.add(k, c);
        i = i + 1;
    }
    assert(sb.take(n as int) =~= sb);
    t
}

/// `new` is `old` with one more value in bucket `key`: the count grows by
/// one (and the zero count, for the zero bucket), and the buckets are those
/// of `old` with the value added, compacted as few times as it takes to fit
/// in `max_buckets`.
pub open spec fn value_added(old: UddCore, new: UddCore, key: SketchHashKey) -> bool {
    let grown = add_count(old.spec_buckets(), key, 1);
    let rounds = (new.spec_compactions() - old.spec_compactions()) as nat;
    &&& new.spec_count() == old.spec_count() + 1
    &&& new.spec_zero_count() == old.spec_zero_count() + if key is Zero { 1int } else { 0int }
    &&& new.spec_max_buckets() == old.spec_max_buckets()
    &&& new.spec_compactions() >= old.spec_compactions()
    &&& new.spec_buckets() == compact_n(grown, rounds)
    &&& new.spec_buckets().len() <= new.spec_max_buckets()
    &&& forall|j: nat| j < rounds ==> #[trigger] compact_n(grown, j).len() > old.spec_max_buckets()
}

/// `new` is `old` with `other` merged in: unchanged when `other` is empty,
/// a copy of `other` when `old` is empty, and otherwise the two tables
/// brought to the same compaction level, added together and compacted as
/// few times as it takes to fit, with the counts added.
pub open spec fn cores_merged(old: UddCore, other: UddCore, new: UddCore) -> bool {
    let level = if old.spec_compactions() >= other.spec_compactions() {
        old.spec_compactions()
    } else {
        other.spec_compactions()
    };
    let merged = merge_tables(
        old.spec_buckets(),
        old.spec_compactions() as nat,
        other.spec_buckets(),
        other.spec_compactions() as nat,
    );
    &&& other.spec_count() == 0 ==> new == old
    &&& old.spec_count() == 0 && other.spec_count() > 0 ==> {
        &&& new.spec_buckets() == other.spec_buckets()
        &&& new.spec_compactions() == other.spec_compactions()
        &&& new.spec_max_buckets() == other.spec_max_buckets()
        &&& new.spec_count() == other.spec_count()
        &&& new.spec_zero_count() == other.spec_zero_count()
    }
    &&& old.spec_count() > 0 && other.spec_count() > 0 ==> {
        &&& new.spec_compactions() >= level
        &&& new.spec_buckets() == compact_n(merged, (new.spec_compactions() - level) as nat)
        &&& new.spec_buckets().len() <= new.spec_max_buckets()
        &&& forall|j: nat|
            j < new.spec_compactions() - level ==> #[trigger] compact_n(merged, j).len()
                > old.spec_max_buckets()
        &&& new.spec_max_buckets() == old.spec_max_buckets()
        &&& new.spec_count() == old.spec_count() + other.spec_count()
        &&& new.spec_zero_count() == old.spec_zero_count() + other.spec_zero_count()
    }
}

/// The values held by the entries whose key satisfies `p`.
spec fn pred_total(s: Seq<(SketchHashKey, u64)>, p: spec_fn(SketchHashKey) -> bool) -> nat
    decreases s.len(),
{
    if s.len() == 0 {
        0
    } else {
        pred_total(s.drop_last(), p) + if p(s.last().0) { s.last().1 as nat } else { 0nat }
    }
}

proof fn lemma_pred_total_congruent(
    s: Seq<(SketchHashKey, u64)>,
    p: spec_fn(SketchHashKey) -> bool,
    q: spec_fn(SketchHashKey) -> bool,
)
    requires
        forall|x: SketchHashKey| #[trigger] p(x) == q(x),
    ensures
        pred_total(s, p) == pred_total(s, q),
    decreases s.len(),
{
    if s.len() > 0 {
        lemma_pred_total_congruent(s.drop_last(), p, q);
    }
}

proof fn lemma_pred_total_key(s: Seq<(SketchHashKey, u64)>, k: SketchHashKey)
    ensures
        key_total(s, k) == pred_total(s, |x: SketchHashKey| x == k),
    decreases s.len(),
{
    if s.len() > 0 {
        lemma_pred_total_key(s.drop_last(), k);
    }
}

proof fn lemma_pred_total_concat(
    a: Seq<(SketchHashKey, u64)>,
    b: Seq<(SketchHashKey, u64)>,
    p: spec_fn(SketchHashKey) -> bool,
)
    ensures
        pred_total(a + b, p) == pred_total(a, p) + pred_total(b, p),
    decreases b.len(),
{
    if b.len() > 0 {
        assert((a + b).drop_last() =~= a + b.drop_last());
        lemma_pred_total_concat(a, b.drop_last(), p);
    } else {
        assert(a + b =~= a);
    }
}

proof fn lemma_pred_total_single(e: (SketchHashKey, u64), p: spec_fn(SketchHashKey) -> bool)
    ensures
        pred_total(seq![e], p) == if p(e.0) { e.1 as nat } else { 0nat },
{
    let s = seq![e];
    assert(s.drop_last() =~= Seq::<(SketchHashKey, u64)>::empty());
    assert(pred_total(s.drop_last(), p) == 0);
    assert(s.last() == e);
}

proof fn lemma_pred_total_add_count(
    s: Seq<(SketchHashKey, u64)>,
    k: SketchHashKey,
    d: u64,
    p: spec_fn(SketchHashKey) -> bool,
)
    requires
        buckets_wf(s),
        total(s) + d <= u64::MAX,
    ensures
        pred_total(add_count(s, k, d), p) == pred_total(s, p) + if p(k) { d as nat } else { 0nat },
{
    lemma_insert_pos(s, k);
    let i = insert_pos(s, k);
    if i < s.len() && s[i].0 == k {
        lemma_entry_le_total(s, i);
        let e = (k, (s[i].1 + d) as u64);
        assert(s.update(i, e) =~= s.take(i) + seq![e] + s.skip(i + 1));
        assert(s =~= s.take(i) + seq![s[i]] + s.skip(i + 1));
        lemma_pred_total_concat(s.take(i) + seq![e], s.skip(i + 1), p);
        lemma_pred_total_concat(s.take(i), seq![e], p);
        lemma_pred_total_concat(s.take(i) + seq![s[i]], s.skip(i + 1), p);
        lemma_pred_total_concat(s.take(i), seq![s[i]], p);
        lemma_pred_total_single(e, p);
        lemma_pred_total_single(s[i], p);
    } else {
        let e = (k, d);
        assert(s.insert(i, e) =~= s.take(i) + seq![e] + s.skip(i));
        assert(s =~= s.take(i) + s.skip(i));
        lemma_pred_total_concat(s.take(i) + seq![e], s.skip(i), p);
        lemma_pred_total_concat(s.take(i), seq![e], p);
        lemma_pred_total_concat(s.take(i), s.skip(i), p);
        lemma_pred_total_single(e, p);
    }
}

proof fn lemma_pred_total_add_all(
    s: Seq<(SketchHashKey, u64)>,
    o: Seq<(SketchHashKey, u64)>,
    p: spec_fn(SketchHashKey) -> bool,
)
    requires
        buckets_wf(s),
        real_buckets(o),
        total(s) + total(o) <= u64::MAX,
    ensures
        pred_total(add_all(s, o), p) == pred_total(s, p) + pred_total(o, p),
    decreases o.len(),
{
    if o.len() > 0 {
        let d = o.drop_last();
        assert(real_buckets(d)) by {
            assert forall|i: int| 0 <= i < d.len() implies !(#[trigger] d[i].0 is Invalid)
                && d[i].1 > 0 by {
                assert(d[i] == o[i]);
            }
        }
        lemma_pred_total_add_all(s, d, p);
        lemma_add_all(s, d);
        lemma_pred_total_add_count(add_all(s, d), o.last().0, o.last().1, p);
    }
}

proof fn lemma_pred_total_merge_adjacent(t: Seq<(SketchHashKey, u64)>, p: spec_fn(SketchHashKey) -> bool)
    requires
        nondecreasing_keys(t),
        real_buckets(t),
        total(t) <= u64::MAX,
    ensures
        pred_total(merge_adjacent(t), p) == pred_total(t, p),
    decreases t.len(),
{
    if t.len() > 0 {
        let d = t.drop_last();
        assert(nondecreasing_keys(d)) by {
            assert forall|i: int, j: int| 0 <= i < j < d.len() implies key_le(
                #[trigger] d[i].0,
                #[trigger] d[j].0,
            ) by {
                assert(key_le(t[i].0, t[j].0));
            }
        }
        assert(real_buckets(d)) by {
            assert forall|i: int| 0 <= i < d.len() implies !(#[trigger] d[i].0 is Invalid)
                && d[i].1 > 0 by {
                assert(d[i] == t[i]);
            }
        }
        lemma_total_push(d, t.last());
        assert(d.push(t.last()) =~= t);
        lemma_merge_adjacent(d);
        lemma_pred_total_merge_adjacent(d, p);
        let r = merge_adjacent(d);
        let e = t.last();
        if r.len() > 0 && r.last().0 == e.0 {
            let last = r.len() - 1;
            lemma_entry_le_total(r, last);
            let ne = (e.0, (r.last().1 + e.1) as u64);
            assert(r.update(last, ne).drop_last() =~= r.drop_last());
        } else {
            assert(r.push(e).drop_last() =~= r);
        }
    }
}

proof fn lemma_pred_total_relabel(s: Seq<(SketchHashKey, u64)>, p: spec_fn(SketchHashKey) -> bool)
    ensures
        pred_total(relabel(s), p) == pred_total(s, |x: SketchHashKey| p(spec_compact_key(x))),
    decreases s.len(),
{
    if s.len() > 0 {
        assert(relabel(s).drop_last() =~= relabel(s.drop_last()));
        lemma_pred_total_relabel(s.drop_last(), p);
    }
}

/// `n` compactions move each value to its key compacted `n` times.
proof fn lemma_pred_total_compact_n(
    s: Seq<(SketchHashKey, u64)>,
    n: nat,
    p: spec_fn(SketchHashKey) -> bool,
)
    requires
        buckets_wf(s),
        total(s) <= u64::MAX,
    ensures
        pred_total(compact_n(s, n), p) == pred_total(s, |x: SketchHashKey| p(compact_key_n(x, n))),
    decreases n,
{
    if n == 0 {
        lemma_pred_total_congruent(s, p, |x: SketchHashKey| p(compact_key_n(x, 0)));
    } else {
        let m = (n - 1) as nat;
        let c = compact_n(s, m);
        lemma_compact_n(s, m);
        lemma_relabel(c);
        lemma_pred_total_merge_adjacent(relabel(c), p);
        lemma_pred_total_relabel(c, p);
        let q = |x: SketchHashKey| p(spec_compact_key(x));
        lemma_pred_total_compact_n(s, m, q);
        lemma_pred_total_congruent(
            s,
            |x: SketchHashKey| q(compact_key_n(x, m)),
            |x: SketchHashKey| p(compact_key_n(x, n)),
        );
    }
}

proof fn lemma_key_n_compose(x: SketchHashKey, d: nat, r: nat)
    ensures
        compact_key_n(compact_key_n(x, d), r) == compact_key_n(x, d + r),
    decreases r,
{
    if r > 0 {
        lemma_key_n_compose(x, d, (r - 1) as nat);
    }
}

/// One side of a merge: the values of `a` and of `b` brought to a common
/// level (`b` compacted `d` more times), added, and compacted `r` times more
/// hold, per key, what `a` compacted `r` times and `b` compacted `d + r`
/// times hold.
proof fn lemma_merge_side(
    a: Seq<(SketchHashKey, u64)>,
    b: Seq<(SketchHashKey, u64)>,
    d: nat,
    r: nat,
    k: SketchHashKey,
)
    requires
        buckets_wf(a),
        buckets_wf(b),
        total(a) + total(b) <= u64::MAX,
    ensures
        key_total(compact_n(add_all(a, compact_n(b, d)), r), k) == key_total(compact_n(a, r), k)
            + key_total(compact_n(b, d + r), k),
{
    let bd = compact_n(b, d);
    lemma_compact_n(b, d);
    lemma_add_all(a, bd);
    let m = add_all(a, bd);
    let eqk = |x: SketchHashKey| x == k;
    let pr = |x: SketchHashKey| eqk(compact_key_n(x, r));
    lemma_pred_total_key(compact_n(m, r), k);
    lemma_pred_total_compact_n(m, r, eqk);
    lemma_pred_total_add_all(a, bd, pr);
    lemma_pred_total_key(compact_n(a, r), k);
    lemma_pred_total_compact_n(a, r, eqk);
    lemma_pred_total_compact_n(b, d, pr);
    lemma_pred_total_key(compact_n(b, d + r), k);
    lemma_pred_total_compact_n(b, d + r, eqk);
    assert forall|y: SketchHashKey| #[trigger] pr(compact_key_n(y, d)) == eqk(
        compact_key_n(y, d + r),
    ) by {
        lemma_key_n_compose(y, d, r);
    }
    lemma_pred_total_congruent(
        b,
        |y: SketchHashKey| pr(compact_key_n(y, d)),
        |y: SketchHashKey| eqk(compact_key_n(y, d + r)),
    );
}

/// The other side of a merge: `a` is the one compacted `d` more times.
proof fn lemma_merge_side_left(
    a: Seq<(SketchHashKey, u64)>,
    b: Seq<(SketchHashKey, u64)>,
    d: nat,
    r: nat,
    k: SketchHashKey,
)
    requires
        buckets_wf(a),
        buckets_wf(b),
        total(a) + total(b) <= u64::MAX,
    ensures
        key_total(compact_n(add_all(compact_n(a, d), b), r), k) == key_total(compact_n(a, d + r), k)
            + key_total(compact_n(b, r), k),
{
    let ad = compact_n(a, d);
    lemma_compact_n(a, d);
    lemma_add_all(ad, b);
    let m = add_all(ad, b);
    let eqk = |x: SketchHashKey| x == k;
    let pr = |x: SketchHashKey| eqk(compact_key_n(x, r));
    lemma_pred_total_key(compact_n(m, r), k);
    lemma_pred_total_compact_n(m, r, eqk);
    lemma_pred_total_add_all(ad, b, pr);
    lemma_pred_total_key(compact_n(b, r), k);
    lemma_pred_total_compact_n(b, r, eqk);
    lemma_pred_total_compact_n(a, d, pr);
    lemma_pred_total_key(compact_n(a, d + r), k);
    lemma_pred_total_compact_n(a, d + r, eqk);
    assert forall|y: SketchHashKey| #[trigger] pr(compact_key_n(y, d)) == eqk(
        compact_key_n(y, d + r),
    ) by {
        lemma_key_n_compose(y, d, r);
    }
    lemma_pred_total_congruent(
        a,
        |y: SketchHashKey| pr(compact_key_n(y, d)),
        |y: SketchHashKey| eqk(compact_key_n(y, d + r)),
    );
}

/// Merging keeps every value of both sketches, each where it belongs: the
/// less compacted sketch is brought to the other's compaction level before
/// the two are added. After merging two non-empty sketches, at the final
/// compaction level, every bucket key holds exactly what the first sketch's
/// buckets and the second sketch's buckets hold there once each is
/// compacted up to that level.
pub proof fn lemma_merge_keeps_values(old: UddCore, other: UddCore, new: UddCore, k: SketchHashKey)
    requires
        old.wf(),
        other.wf(),
        old.spec_count() + other.spec_count() <= u64::MAX,
        old.spec_count() > 0,
        other.spec_count() > 0,
        cores_merged(old, other, new),
    ensures
        new.spec_compactions() >= old.spec_compactions(),
        new.spec_compactions() >= other.spec_compactions(),
        key_total(new.spec_buckets(), k) == key_total(
            compact_n(old.spec_buckets(), (new.spec_compactions() - old.spec_compactions()) as nat),
            k,
        ) + key_total(
            compact_n(other.spec_buckets(), (new.spec_compactions() - other.spec_compactions()) as nat),
            k,
        ),
{
    let la = old.spec_compactions() as nat;
    let lb = other.spec_compactions() as nat;
    let level: nat = if la >= lb { la } else { lb };
    let r = (new.spec_compactions() - level) as nat;
    if la >= lb {
        lemma_merge_side(old.spec_buckets(), other.spec_buckets(), (la - lb) as nat, r, k);
        assert((la - lb) as nat + r == new.spec_compactions() - lb);
    } else {
        lemma_merge_side_left(old.spec_buckets(), other.spec_buckets(), (lb - la) as nat, r, k);
        assert((lb - la) as nat + r == new.spec_compactions() - la);
    }
}

impl UddCore {
    /// The buckets in increasing key order with their counts.
    pub closed spec fn spec_buckets(&self) -> Seq<(SketchHashKey, u64)> {
        self.buckets@
    }

    pub closed spec fn spec_compactions(&self) -> u32 {
        self.compactions
    }

    pub closed spec fn spec_max_buckets(&self) -> u64 {
        self.max_buckets
    }

    pub closed spec fn spec_count(&self) -> u64 {
        self.num_values
    }

    pub closed spec fn spec_zero_count(&self) -> u64 {
        self.zero_count
    }

    /// The buckets are well formed and hold exactly the values counted.
    pub closed spec fn wf(&self) -> bool {
        &&& buckets_wf(self.buckets@)
        &&& total(self.buckets@) == self.num_values
        &&& self.zero_count <= self.num_values
    }

    /// An empty sketch core that keeps at most `max_buckets` buckets.
    pub fn new(max_buckets: u64) -> (c: Self)
        ensures
            c.wf(),
            c.spec_buckets() == Seq::<(SketchHashKey, u64)>::empty(),
            c.spec_compactions() == 0,
            c.spec_max_buckets() == max_buckets,
            c.spec_count() == 0,
            c.spec_zero_count() == 0,
    {
        UddCore {
            buckets: SketchHashMap::new(),
            compactions: 0,
            max_buckets,
            num_values: 0,
            zero_count: 0,
        }
    }

    /// Compact the buckets once: neighbours merge, the error bound grows.
    pub fn compact_buckets(&mut self)
        requires
            old(self).wf(),
            old(self).spec_compactions() < u32::MAX,
        ensures
            final(self).wf(),
            final(self).spec_buckets() == compacted(old(self).spec_buckets()),
            final(self).spec_compactions() == old(self).spec_compactions() + 1,
            final(self).spec_max_buckets() == old(self).spec_max_buckets(),
            final(self).spec_count() == old(self).spec_count(),
            final(self).spec_zero_count() == old(self).spec_zero_count(),
    {
        self.buckets.compact();
        self.compactions = self.compactions + 1;
    }

    /// Compact until no more than `max_buckets` buckets are left.
    fn compact_until_fits(&mut self)
        requires
            buckets_wf(old(self).buckets@),
            total(old(self).buckets@) <= u64::MAX,
            settles(old(self).buckets@, old(self).max_buckets as nat, (u32::MAX - old(self).compactions) as nat),
        ensures
            final(self).compactions >= old(self).compactions,
            final(self).buckets@ == compact_n(old(self).buckets@, (final(self).compactions - old(self).compactions) as nat),
            final(self).buckets@.len() <= final(self).max_buckets,
            forall|j: nat| j < final(self).compactions - old(self).compactions ==> #[trigger] compact_n(old(self).buckets@, j).len() > old(self).max_buckets,
            buckets_wf(final(self).buckets@),
            total(final(self).buckets@) == total(old(self).buckets@),
            final(self).max_buckets == old(self).max_buckets,
            final(self).num_values == old(self).num_values,
            final(self).zero_count == old(self).zero_count,
    {
        let ghost s0 = self.buckets@;
        let ghost c0 = self.compactions;
        let ghost max = self.max_buckets as nat;
        let ghost k0: nat = choose|k: nat| k <= (u32::MAX - c0) as nat && #[trigger] compact_n(s0, k).len() <= max;
        proof {
            lemma_compact_n(s0, 0);
        }
        while (self.buckets.len() as u64) > self.max_buckets
            invariant
                self.compactions >= c0,
                self.compactions - c0 <= k0,
                c0 + k0 <= u32::MAX,
                compact_n(s0, k0).len() <= max,
                max == self.max_buckets,
                buckets_wf(s0),
                total(s0) <= u64::MAX,
                self.buckets@ == compact_n(s0, (self.compactions - c0) as nat),
                buckets_wf(self.buckets@),
                total(self.buckets@) == total(s0),
                forall|j: nat| j < self.compactions - c0 ==> #[trigger] compact_n(s0, j).len() > max,
                self.num_values == old(self).num_values,
                self.zero_count == old(self).zero_count,
            decreases k0 - (self.compactions - c0),
        {
            let ghost i: nat = (self.compactions - c0) as nat;
            assert(i != k0);
            self.buckets.compact();
            self.compactions = self.compactions + 1;
            proof {
                assert(compact_n(s0, (i + 1) as nat) == compacted(compact_n(s0, i)));
                lemma_compact_n(s0, (i + 1) as nat);
                assert forall|j: nat| j < self.compactions - c0 implies #[trigger] compact_n(s0, j).len() > max by {
                    if j < i {
                    }
                }
            }
        }
    }

    /// Count one value that falls in bucket `key`, then compact until the
    /// buckets fit in `max_buckets` again.
    pub fn add_key(&mut self, key: SketchHashKey)
        requires
            old(self).wf(),
            !(key is Invalid),
            old(self).spec_count() < u64::MAX,
            settles(
                add_count(old(self).spec_buckets(), key, 1),
                old(self).spec_max_buckets() as nat,
                (u32::MAX - old(self).spec_compactions()) as nat,
            ),
        ensures
            final(self).wf(),
            value_added(*old(self), *final(self), key),
    {
        self.buckets.increment(key);
        self.compact_until_fits();
        self.num_values = self.num_values + 1;
        if matches!(key, SketchHashKey::Zero) {
            self.zero_count = self.zero_count + 1;
        }
    }

    /// Count one value in bucket `key` where that is sure to finish: the
    /// key is a real bucket, the count can still grow, and compacting the
    /// grown table brings it within `max_buckets` in the compactions still
    /// left. Answers whether the value was counted; when it was not,
    /// nothing changes. With room for seven buckets and sixty-four
    /// compactions to spare this is known at once; otherwise the
    /// compaction is tried out on a copy.
    pub fn try_add_key(&mut self, key: SketchHashKey) -> (added: bool)
        requires
            old(self).wf(),
        ensures
            final(self).wf(),
            added == (!(key is Invalid) && old(self).spec_count() < u64::MAX && settles(
                add_count(old(self).spec_buckets(), key, 1),
                old(self).spec_max_buckets() as nat,
                (u32::MAX - old(self).spec_compactions()) as nat,
            )),
            added ==> value_added(*old(self), *final(self), key),
            !added ==> *final(self) == *old(self),
    {
        if !key.is_valid() || self.num_values == u64::MAX {
            return false;
        }
        proof {
            lemma_add_count(self.buckets@, key, 1);
        }
        if self.max_buckets >= 7 && self.compactions <= u32::MAX - 64 {
            proof {
                lemma_room_settles(
                    add_count(self.buckets@, key, 1),
                    self.max_buckets as nat,
                    (u32::MAX - self.compactions) as nat,
                );
            }
        } else {
            let mut grown = self.buckets.clone();
            grown.increment(key);
            if !settles_within(&grown, self.max_buckets, u32::MAX - self.compactions) {
                return false;
            }
        }
        self.add_key(key);
        true
    }

    /// A copy of this core.
    pub fn duplicate(&self) -> (c: Self)
        ensures
            c.spec_buckets() == self.spec_buckets(),
            c.spec_compactions() == self.spec_compactions(),
            c.spec_max_buckets() == self.spec_max_buckets(),
            c.spec_count() == self.spec_count(),
            c.spec_zero_count() == self.spec_zero_count(),
            self.wf() ==> c.wf(),
    {
        UddCore {
            buckets: self.buckets.clone(),
            compactions: self.compactions,
            max_buckets: self.max_buckets,
            num_values: self.num_values,
            zero_count: self.zero_count,
        }
    }

    /// Merge `other` into this core. The less compacted of the two is
    /// compacted until both are at the same level; then the buckets are
    /// added together and compacted until they fit.
    pub fn merge(&mut self, other: &UddCore)
        requires
            old(self).wf(),
            other.wf(),
            old(self).spec_max_buckets() == other.spec_max_buckets(),
            old(self).spec_count() + other.spec_count() <= u64::MAX,
            old(self).spec_count() > 0 && other.spec_count() > 0 ==> settles(
                merge_tables(
                    old(self).spec_buckets(),
                    old(self).spec_compactions() as nat,
                    other.spec_buckets(),
                    other.spec_compactions() as nat,
                ),
                old(self).spec_max_buckets() as nat,
                (u32::MAX - if old(self).spec_compactions() >= other.spec_compactions() {
                    old(self).spec_compactions()
                } else {
                    other.spec_compactions()
                }) as nat,
            ),
        ensures
            final(self).wf(),
            cores_merged(*old(self), *other, *final(self)),
    {
        if other.num_values == 0 {
            return;
        }
        if self.num_values == 0 {
            *self = other.duplicate();
            return;
        }
        let ghost a0 = self.buckets@;
        let ghost b0 = other.buckets@;
        assert(buckets_wf(a0) && total(a0) <= u64::MAX);
        let mut o = other.duplicate();
        while self.compactions > o.compactions
            invariant
                o.wf(),
                self.wf(),
                other.wf(),
                buckets_wf(b0),
                total(b0) <= u64::MAX,
                b0 == other.buckets@,
                o.compactions == other.compactions || o.compactions <= self.compactions,
                o.compactions >= other.compactions,
                o.buckets@ == compact_n(b0, (o.compactions - other.compactions) as nat),
                o.num_values == other.num_values,
                o.zero_count == other.zero_count,
                *self == *old(self),
            decreases self.compactions - o.compactions,
        {
            proof {
                lemma_compact_n(b0, (o.compactions - other.compactions + 1) as nat);
            }
            o.compact_buckets();
        }
        let ghost self_c = self.compactions;
        while o.compactions > self.compactions
            invariant
                o.wf(),
                self.wf(),
                buckets_wf(a0),
                total(a0) <= u64::MAX,
                o.compactions >= other.compactions,
                self.compactions >= self_c,
                self_c == old(self).compactions,
                self.buckets@ == compact_n(a0, (self.compactions - self_c) as nat),
                o.buckets@ == compact_n(b0, (o.compactions - other.compactions) as nat),
                self.num_values == old(self).num_values,
                self.zero_count == old(self).zero_count,
                self.max_buckets == old(self).max_buckets,
                o.compactions == other.compactions || o.compactions <= self_c,
                o.compactions <= self.compactions ==> self.compactions == self_c || self.compactions == o.compactions,
            decreases o.compactions - self.compactions,
        {
            proof {
                lemma_compact_n(a0, (self.compactions - self_c + 1) as nat);
            }
            self.compact_buckets();
        }
        let ghost aligned_a = self.buckets@;
        let ghost aligned_b = o.buckets@;
        proof {
            if old(self).compactions >= other.compactions {
                assert(aligned_a == a0);
            } else {
                assert(aligned_b == b0);
            }
            assert(aligned_b == o.buckets@);
            assert(merge_tables(a0, old(self).compactions as nat, b0, other.compactions as nat) == add_all(aligned_a, aligned_b));
        }
        let n = o.buckets.len();
        let mut i: usize = 0;
        while i < n
            invariant
                n == aligned_b.len(),
                o.buckets@ == aligned_b,
                buckets_wf(aligned_a),
                buckets_wf(aligned_b),
                total(aligned_a) + total(aligned_b) <= u64::MAX,
                i <= n,
                self.buckets@ == add_all(aligned_a, aligned_b.take(i as int)),
                buckets_wf(self.buckets@),
                total(self.buckets@) == total(aligned_a) + total(aligned_b.take(i as int)),
                self.compactions == o.compactions,
                self.num_values == old(self).num_values,
                self.zero_count == old(self).zero_count,
                self.max_buckets == old(self).max_buckets,
            decreases n - i,
        {
            let (k, c) = o.buckets.get(i);
            proof {
                let t = aligned_b.take(i as int + 1);
                assert(t.drop_last() =~= aligned_b.take(i as int));
                assert(t.last() == aligned_b[i as int]);
                lemma_total_take(aligned_b, i as int);
                assert(aligned_b =~= t + aligned_b.skip(i as int + 1));
                lemma_total_concat(t, aligned_b.skip(i as int + 1));
            }
            self.buckets.add(k, c);
            i = i + 1;
        }
        assert(aligned_b.take(n as int) =~= aligned_b);
        self.compact_until_fits();
        self.num_values = self.num_values + o.num_values;
        self.zero_count = self.zero_count + o.zero_count;
    }

    /// Merge `other` into this core where that is sure to finish: both
    /// keep the same number of buckets, the counts fit together, and (when
    /// both hold values) compacting the added tables brings them within
    /// `max_buckets` in the compactions still left. Answers whether the
    /// merge happened; when it did not, nothing changes. With room for
    /// seven buckets and sixty-four compactions to spare this is known at
    /// once; otherwise the compaction is tried out on a copy.
    pub fn try_merge(&mut self, other: &UddCore) -> (merged: bool)
        requires
            old(self).wf(),
            other.wf(),
        ensures
            final(self).wf(),
            merged == (old(self).spec_max_buckets() == other.spec_max_buckets()
                && old(self).spec_count() + other.spec_count() <= u64::MAX
                && (old(self).spec_count() > 0 && other.spec_count() > 0 ==> settles(
                merge_tables(
                    old(self).spec_buckets(),
                    old(self).spec_compactions() as nat,
                    other.spec_buckets(),
                    other.spec_compactions() as nat,
                ),
                old(self).spec_max_buckets() as nat,
                (u32::MAX - if old(self).spec_compactions() >= other.spec_compactions() {
                    old(self).spec_compactions()
                } else {
                    other.spec_compactions()
                }) as nat,
            ))),
            merged ==> cores_merged(*old(self), *other, *final(self)),
            !merged ==> *final(self) == *old(self),
    {
        if self.max_buckets != other.max_buckets || self.num_values > u64::MAX - other.num_values {
            return false;
        }
        if self.num_values > 0 && other.num_values > 0 {
            let ghost a = self.buckets@;
            let ghost b = other.buckets@;
            let ghost ca = self.compactions as nat;
            let ghost cb = other.compactions as nat;
            let level = if self.compactions >= other.compactions { self.compactions } else { other.compactions };
            if self.max_buckets >= 7 && level <= u32::MAX - 64 {
                proof {
                    if ca >= cb {
                        lemma_compact_n(b, (ca - cb) as nat);
                        lemma_add_all(a, compact_n(b, (ca - cb) as nat));
                    } else {
                        lemma_compact_n(a, (cb - ca) as nat);
                        lemma_add_all(compact_n(a, (cb - ca) as nat), b);
                    }
                    lemma_room_settles(merge_tables(a, ca, b, cb), self.max_buckets as nat, (u32::MAX - level) as nat);
                }
            } else {
                let t = if self.compactions >= other.compactions {
                    let ob = compacted_copy(&other.buckets, self.compactions - other.compactions);
                    added_copy(&self.buckets, &ob)
                } else {
                    let sb = compacted_copy(&self.buckets, other.compactions - self.compactions);
                    added_copy(&sb, &other.buckets)
                };
                if !settles_within(&t, self.max_buckets, u32::MAX - level) {
                    return false;
                }
            }
        }
        self.merge(other);
        true
    }

    /// The bucket that holds the value of rank `rank` (counting from one):
    /// walking buckets in key order, the first at which the running count
    /// reaches `rank`. A rank at or past the number of values gives the last
    /// bucket; an empty core gives `None`.
    pub fn bucket_at_rank(&self, rank: u64) -> (r: Option<SketchHashKey>)
        requires
            self.wf(),
        ensures
            rank >= self.spec_count() ==> r == if self.spec_buckets().len() == 0 {
                None
            } else {
                Some(self.spec_buckets().last().0)
            },
            rank < self.spec_count() ==> 0 <= rank_position(self.spec_buckets(), rank as int)
                < self.spec_buckets().len() && r == Some(
                self.spec_buckets()[rank_position(self.spec_buckets(), rank as int)].0,
            ),
    {
        let n = self.buckets.len();
        if rank >= self.num_values {
            if n == 0 {
                return None;
            }
            return Some(self.buckets.get(n - 1).0);
        }
        let ghost s = self.buckets@;
        let mut remaining = rank;
        let mut i: usize = 0;
        assert(s.skip(0) =~= s);
        assert(s.take(0) =~= Seq::<(SketchHashKey, u64)>::empty());
        while i < n
            invariant
                n == s.len(),
                s == self.buckets@,
                total(s) == self.num_values,
                rank < self.num_values,
                i <= n,
                remaining as int == rank - total(s.take(i as int)),
                rank_position(s, rank as int) == i + rank_position(s.skip(i as int), remaining as int),
                remaining > 0 || i == 0,
            decreases n - i,
        {
            let (k, c) = self.buckets.get(i);
            if remaining <= c {
                assert(rank_position(s.skip(i as int), remaining as int) == 0) by {
                    assert(s.skip(i as int)[0] == s[i as int]);
                }
                return Some(k);
            }
            proof {
                lemma_rank_step(s, i as int, remaining as int);
                lemma_total_take(s, i as int);
            }
            remaining = remaining - c;
            i = i + 1;
        }
        proof {
            assert(s.take(n as int) =~= s);
        }
        None
    }

    /// Counts for the share of values at or below bucket `target`: the
    /// values in buckets before it, the values in it, and whether any bucket
    /// at or past it exists.
    pub fn cdf_counts(&self, target: SketchHashKey) -> (r: (u64, u64, bool))
        requires
            self.wf(),
        ensures
            ({
                let s = self.spec_buckets();
                let p = insert_pos(s, target);
                &&& r.0 == total(s.take(p))
                &&& r.2 == (p < s.len())
                &&& r.1 == if p < s.len() && s[p].0 == target { s[p].1 } else { 0 }
            }),
    {
        let ghost s = self.buckets@;
        let n = self.buckets.len();
        let mut below: u64 = 0;
        let mut i: usize = 0;
        assert(s.take(0) =~= Seq::<(SketchHashKey, u64)>::empty());
        while i < n
            invariant
                n == s.len(),
                s == self.buckets@,
                buckets_wf(s),
                total(s) == self.num_values,
                i <= n,
                below == total(s.take(i as int)),
                forall|j: int| 0 <= j < i ==> key_lt(#[trigger] s[j].0, target),
            decreases n - i,
        {
            let (k, c) = self.buckets.get(i);
            if k.less_than(&target) {
                proof {
                    lemma_total_take(s, i as int);
                    assert(s =~= s.take(i as int + 1) + s.skip(i as int + 1));
                    lemma_total_concat(s.take(i as int + 1), s.skip(i as int + 1));
                }
                below = below + c;
                i = i + 1;
            } else {
                proof {
                    lemma_insert_pos_unique(s, target, i as int);
                }
                if k == target {
                    return (below, c, true);
                }
                return (below, 0, true);
            }
        }
        proof {
            lemma_insert_pos_unique(s, target, i as int);
        }
        (below, 0, false)
    }

    /// The number of values added.
    pub fn count(&self) -> (n: u64)
        ensures
            n == self.spec_count(),
    {
        self.num_values
    }

    /// The number of values that were exactly zero.
    pub fn zero_count(&self) -> (n: u64)
        ensures
            n == self.spec_zero_count(),
    {
        self.zero_count
    }

    /// How many compactions the buckets went through.
    pub fn compactions(&self) -> (n: u32)
        ensures
            n == self.spec_compactions(),
    {
        self.compactions
    }

    /// The most buckets kept before compacting.
    pub fn max_buckets(&self) -> (n: u64)
        ensures
            n == self.spec_max_buckets(),
    {
        self.max_buckets
    }

    /// The number of buckets in use.
    pub fn current_buckets_count(&self) -> (n: usize)
        ensures
            n == self.spec_buckets().len(),
    {
        self.buckets.len()
    }

    /// Walk the buckets in increasing key order.
    pub fn bucket_iter(&self) -> (it: SketchHashIterator<'_>)
        ensures
            it.remaining() == self.spec_buckets(),
    {
        self.buckets.iter()
    }
}


// ---------------------------------------------------------------------------
// The sketch: integer core plus floating-point state as bit patterns
// ---------------------------------------------------------------------------

/// The floating-point state of a sketch, each field the bit pattern of an
/// IEEE-754 double: the relative error bound, the bucket growth factor, and
/// the sum, least and greatest of the values added.
#[derive(Clone, Copy, Debug, PartialEq, Eq, Structural)]
pub struct FloatStats {
    pub alpha: u64,
    pub gamma: u64,
    pub values_sum: u64,
    pub min: u64,
    pub max: u64,
}

/// Approximate quantile sketch with bounded relative error.
///
/// Values are put in logarithmic buckets; when there are more than
/// `max_buckets` buckets, neighbouring buckets are merged (compacted), which
/// widens the error bound. The bucket bookkeeping is the verified
/// [`UddCore`]; the floating-point state travels with it as bit patterns.
pub struct UDDSketch {
    counts: UddCore,
    stats: FloatStats,
}

impl UDDSketch {
    /// A sketch made of a core and its floating-point state.
    pub fn from_parts(counts: UddCore, stats: FloatStats) -> (s: Self)
        ensures
            s.spec_counts() == counts,
            s.spec_stats() == stats,
    {
        UDDSketch { counts, stats }
    }

    pub closed spec fn spec_counts(&self) -> UddCore {
        self.counts
    }

    pub closed spec fn spec_stats(&self) -> FloatStats {
        self.stats
    }

    /// The floating-point state.
    pub fn stats(&self) -> (s: FloatStats)
        ensures
            s == self.spec_stats(),
    {
        self.stats
    }

    /// Replace the floating-point state.
    pub fn set_stats(&mut self, stats: FloatStats)
        ensures
            final(self).spec_stats() == stats,
            final(self).spec_counts() == old(self).spec_counts(),
    {
        self.stats = stats;
    }

    /// The counting core.
    pub fn counts(&self) -> (c: &UddCore)
        ensures
            *c == self.spec_counts(),
    {
        &self.counts
    }

    /// The counting core, to update in place.
    pub fn counts_mut(&mut self) -> (c: &mut UddCore)
        ensures
            *c == old(self).spec_counts(),
            final(self).spec_counts() == *final(c),
            final(self).spec_stats() == old(self).spec_stats(),
    {
        &mut self.counts
    }

    /// The number of values added.
    pub fn count(&self) -> (n: u64)
        ensures
            n == self.spec_counts().spec_count(),
    {
        self.counts.count()
    }

    /// A copy of this sketch.
    pub fn duplicate(&self) -> (c: Self)
        ensures
            c.spec_counts().spec_buckets() == self.spec_counts().spec_buckets(),
            c.spec_counts().spec_compactions() == self.spec_counts().spec_compactions(),
            c.spec_counts().spec_max_buckets() == self.spec_counts().spec_max_buckets(),
            c.spec_counts().spec_count() == self.spec_counts().spec_count(),
            c.spec_counts().spec_zero_count() == self.spec_counts().spec_zero_count(),
            self.spec_counts().wf() ==> c.spec_counts().wf(),
            c.spec_stats() == self.spec_stats(),
    {
        UDDSketch { counts: self.counts.duplicate(), stats: self.stats }
    }
}

} // verus!
