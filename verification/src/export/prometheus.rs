use vstd::prelude::*;

use crate::aggregator::sketch::UDDSketch;
use crate::export::{FlushedMetric, FlushedValue};
use crate::text::{
    decimal, format_name_path, joined, name_path, opt_view, push_decimal, push_signed_decimal,
    signed_decimal, str_views,
};

verus! {

/// The parts of a metric's exposition that come from floating-point values,
/// already written out as text by the caller.
pub enum FloatTexts {
    /// Counts have no floating-point part.
    Count,
    /// A gauge's value.
    Gauge { value: String },
    /// A histogram: for each bucket boundary, its label and the estimated
    /// number of values at or below it; and the sum of the values.
    Histogram { buckets: Vec<(String, u64)>, sum: String },
}

/// Whether the float texts are of the kind the metric's value needs; for
/// a histogram, no bucket estimate exceeds the number of values (an
/// estimate is a share of that number).
pub open spec fn texts_fit(v: FlushedValue, t: FloatTexts) -> bool {
    match v {
        FlushedValue::Count(_) => t is Count,
        FlushedValue::Gauge(_) => t is Gauge,
        FlushedValue::Histogram(h) => match t {
            FloatTexts::Histogram { buckets, .. } => forall|i: int|
                0 <= i < buckets@.len() ==> #[trigger] buckets@[i].1 <= h.spec_counts().spec_count(),
            _ => false,
        },
    }
}

/// The character views of tag pairs.
pub open spec fn pair_views(pairs: Seq<(&'static str, String)>) -> Seq<(Seq<char>, Seq<char>)> {
    pairs.map_values(|p: (&'static str, String)| (p.0@, p.1@))
}

/// One tag in exposition format: `key="value"`.
pub open spec fn tag_text(p: (Seq<char>, Seq<char>)) -> Seq<char> {
    p.0 + "=\""@ + p.1 + "\""@
}

/// The tags separated by commas, without braces.
pub open spec fn tags_inner(pairs: Seq<(Seq<char>, Seq<char>)>) -> Seq<char> {
    joined(pairs.map_values(|p: (Seq<char>, Seq<char>)| tag_text(p)), ","@)
}

/// The tag block of a sample: `{k="v",...}`, or nothing without tags.
pub open spec fn tags_block(pairs: Seq<(Seq<char>, Seq<char>)>) -> Seq<char> {
    if pairs.len() == 0 {
        Seq::empty()
    } else {
        "{"@ + tags_inner(pairs) + "}"@
    }
}

/// The exposed name: the exporter's namespace, the metric's namespace
/// segments and its name, joined with `_`.
pub open spec fn full_name(prefix: Option<Seq<char>>, namespace: Seq<Seq<char>>, name: Seq<char>) -> Seq<char> {
    name_path(prefix, namespace, name, "_"@)
}

/// `# HELP` and `# TYPE` lines for a family; the help text is the
/// metric's name.
pub open spec fn header(family: Seq<char>, help: Seq<char>, kind: Seq<char>) -> Seq<char> {
    "# HELP "@ + family + " "@ + help + "\n"@ + "# TYPE "@ + family + " "@ + kind + "\n"@
}

/// The running maximum of the bucket estimates up to and including `i`
/// (zero before the first): the cumulative count printed for bucket `i`.
pub open spec fn cumulative(counts: Seq<u64>, i: int) -> u64
    decreases i + 1,
{
    if i < 0 {
        0
    } else {
        let prev = cumulative(counts, i - 1);
        if counts[i] > prev { counts[i] } else { prev }
    }
}

/// The bucket counts a histogram prints never decrease from one boundary to
/// the next, and each is at least the estimate it was made from.
pub proof fn lemma_cumulative_monotone(counts: Seq<u64>, i: int, j: int)
    requires
        0 <= i <= j,
    ensures
        cumulative(counts, i) <= cumulative(counts, j),
        counts[i] <= cumulative(counts, i),
    decreases j - i,
{
    if i < j {
        lemma_cumulative_monotone(counts, i, j - 1);
    }
}

/// When no estimate exceeds `bound` (a histogram's count), no printed
/// bucket count does either.
pub proof fn lemma_cumulative_bounded(counts: Seq<u64>, i: int, bound: u64)
    requires
        forall|k: int| 0 <= k <= i ==> #[trigger] counts[k] <= bound,
    ensures
        cumulative(counts, i) <= bound,
    decreases i + 1,
{
    if i >= 0 {
        lemma_cumulative_bounded(counts, i - 1, bound);
    }
}

/// In rendered histograms, every bucket count lies between 0 and the
/// histogram's count and never decreases from one boundary to the next.
pub proof fn lemma_rendered_buckets(m: FlushedMetric, t: FloatTexts, i: int, j: int)
    requires
        texts_fit(m.value, t),
        m.value is Histogram,
        t is Histogram,
        0 <= i <= j < t->buckets@.len(),
    ensures
        ({
            let counts = t->buckets@.map_values(|b: (String, u64)| b.1);
            &&& cumulative(counts, i) <= cumulative(counts, j)
            &&& cumulative(counts, j) <= m.value->Histogram_0.spec_counts().spec_count()
        }),
{
    let counts = t->buckets@.map_values(|b: (String, u64)| b.1);
    let h = m.value->Histogram_0;
    lemma_cumulative_monotone(counts, i, j);
    assert forall|k: int| 0 <= k <= j implies #[trigger] counts[k] <= h.spec_counts().spec_count() by {
        assert(counts[k] == t->buckets@[k].1);
    }
    lemma_cumulative_bounded(counts, j, h.spec_counts().spec_count());
}

/// A `_bucket` sample line, with the `le` label added to the metric's tags.
pub open spec fn bucket_line(
    name: Seq<char>,
    pairs: Seq<(Seq<char>, Seq<char>)>,
    le: Seq<char>,
    value: Seq<char>,
) -> Seq<char> {
    if pairs.len() == 0 {
        name + "_bucket{le=\""@ + le + "\"} "@ + value + "\n"@
    } else {
        name + "_bucket{"@ + tags_inner(pairs) + ",le=\""@ + le + "\"} "@ + value + "\n"@
    }
}

/// The bucket lines of a histogram for boundaries `0..n`.
pub open spec fn bucket_lines(
    name: Seq<char>,
    pairs: Seq<(Seq<char>, Seq<char>)>,
    buckets: Seq<(Seq<char>, u64)>,
    n: int,
) -> Seq<char>
    decreases n,
{
    if n <= 0 {
        Seq::empty()
    } else {
        bucket_lines(name, pairs, buckets, n - 1) + bucket_line(
            name,
            pairs,
            buckets[n - 1].0,
            decimal(cumulative(buckets.map_values(|b: (Seq<char>, u64)| b.1), n - 1) as nat),
        )
    }
}

/// A counter family: `<name>_total`.
pub open spec fn count_text(name: Seq<char>, tags: Seq<char>, v: i64) -> Seq<char> {
    let family = name + "_total"@;
    header(family, name, "counter"@) + family + tags + " "@ + signed_decimal(v as int) + "\n"@
}

/// A gauge family.
pub open spec fn gauge_text(name: Seq<char>, tags: Seq<char>, value: Seq<char>) -> Seq<char> {
    header(name, name, "gauge"@) + name + tags + " "@ + value + "\n"@
}

/// A histogram family: cumulative buckets, `+Inf`, sum and count.
pub open spec fn histogram_text(
    name: Seq<char>,
    pairs: Seq<(Seq<char>, Seq<char>)>,
    buckets: Seq<(Seq<char>, u64)>,
    sum: Seq<char>,
    count: u64,
) -> Seq<char> {
    let tags = tags_block(pairs);
    let c = decimal(count as nat);
    header(name, name, "histogram"@) + bucket_lines(name, pairs, buckets, buckets.len() as int)
        + bucket_line(name, pairs, "+Inf"@, c) + name + "_sum"@ + tags + " "@ + sum + "\n"@ + name
        + "_count"@ + tags + " "@ + c + "\n"@
}

/// The exposition of one metric.
pub open spec fn metric_text(prefix: Option<Seq<char>>, m: FlushedMetric, t: FloatTexts) -> Seq<char> {
    let name = full_name(prefix, str_views(m.namespace@), m.metric_name@);
    let pairs = pair_views(m.tags.pairs@);
    match m.value {
        FlushedValue::Count(v) => count_text(name, tags_block(pairs), v),
        FlushedValue::Gauge(_) => match t {
            FloatTexts::Gauge { value } => gauge_text(name, tags_block(pairs), value@),
            _ => Seq::empty(),
        },
        FlushedValue::Histogram(h) => match t {
            FloatTexts::Histogram { buckets, sum } => histogram_text(
                name,
                pairs,
                buckets@.map_values(|b: (String, u64)| (b.0@, b.1)),
                sum@,
                h.spec_counts().spec_count(),
            ),
            _ => Seq::empty(),
        },
    }
}

/// The exposition of the first `n` metrics, one after another.
pub open spec fn render_text(
    prefix: Option<Seq<char>>,
    metrics: Seq<FlushedMetric>,
    texts: Seq<FloatTexts>,
    n: int,
) -> Seq<char>
    decreases n,
{
    if n <= 0 {
        Seq::empty()
    } else {
        render_text(prefix, metrics, texts, n - 1) + metric_text(prefix, metrics[n - 1], texts[n - 1])
    }
}

/// The exposition is every metric's block, one after another, in input
/// order: for any metric `i` of the first `n`, what the first `n` render to
/// is what the metrics before `i` render to, then metric `i`'s own block,
/// then what the metrics after it render to.
pub proof fn lemma_render_in_order(
    prefix: Option<Seq<char>>,
    metrics: Seq<FlushedMetric>,
    texts: Seq<FloatTexts>,
    n: int,
    i: int,
)
    requires
        0 <= i < n <= metrics.len(),
        n <= texts.len(),
    ensures
        render_text(prefix, metrics, texts, n) == render_text(prefix, metrics, texts, i) + metric_text(
            prefix,
            metrics[i],
            texts[i],
        ) + render_text(prefix, metrics.skip(i + 1), texts.skip(i + 1), n - i - 1),
    decreases n,
{
    if n == i + 1 {
        assert(render_text(prefix, metrics.skip(i + 1), texts.skip(i + 1), 0) == Seq::<char>::empty());
        assert(render_text(prefix, metrics, texts, i) + metric_text(prefix, metrics[i], texts[i])
            + Seq::<char>::empty() =~= render_text(prefix, metrics, texts, i) + metric_text(
            prefix,
            metrics[i],
            texts[i],
        ));
    } else {
        lemma_render_in_order(prefix, metrics, texts, n - 1, i);
        let ms = metrics.skip(i + 1);
        let ts = texts.skip(i + 1);
        assert(ms[n - i - 2] == metrics[n - 1]);
        assert(ts[n - i - 2] == texts[n - 1]);
        assert(render_text(prefix, ms, ts, n - i - 1) == render_text(prefix, ms, ts, n - i - 2)
            + metric_text(prefix, metrics[n - 1], texts[n - 1]));
        let a = render_text(prefix, metrics, texts, i);
        let b = metric_text(prefix, metrics[i], texts[i]);
        let c = render_text(prefix, ms, ts, n - i - 2);
        let d = metric_text(prefix, metrics[n - 1], texts[n - 1]);
        assert(a + b + c + d =~= a + b + (c + d));
    }
}

/// Append the tags separated by commas, without braces.
pub fn push_tags_inner(s: &mut String, pairs: &Vec<(&'static str, String)>)
    ensures
        final(s)@ == old(s)@ + tags_inner(pair_views(pairs@)),
{
    let n = pairs.len();
    let ghost parts = pair_views(pairs@).map_values(|p: (Seq<char>, Seq<char>)| tag_text(p));
    let mut i: usize = 0;
    assert(parts.take(0) =~= Seq::<Seq<char>>::empty());
    while i < n
        invariant
            n == pairs@.len(),
            parts == pair_views(pairs@).map_values(|p: (Seq<char>, Seq<char>)| tag_text(p)),
            parts.len() == n,
            i <= n,
            s@ == old(s)@ + joined(parts.take(i as int), ","@),
        decreases n - i,
    {
        if i > 0 {
            s.append(",");
        }
        let (k, v) = &pairs[i];
        s.append(k);
        s.append("=\"");
        s.append(v.as_str());
        s.append("\"");
        proof {
            let t = parts.take(i as int + 1);
            assert(t.drop_last() =~= parts.take(i as int));
            assert(t.last() == tag_text((pairs@[i as int].0@, pairs@[i as int].1@)));
            if i == 0 {
                assert(joined(parts.take(0), ","@) =~= Seq::<char>::empty());
            }
            assert(s@ =~= old(s)@ + joined(t, ","@));
        }
        i = i + 1;
    }
    assert(parts.take(n as int) =~= parts);
}

/// The tag block of a sample: `{k="v",...}`, or nothing without tags.
pub fn format_tags(pairs: &Vec<(&'static str, String)>) -> (r: String)
    ensures
        r@ == tags_block(pair_views(pairs@)),
{
    let mut s = String::new();
    if pairs.len() > 0 {
        s.append("{");
        push_tags_inner(&mut s, pairs);
        s.append("}");
    }
    assert(s@ =~= tags_block(pair_views(pairs@)));
    s
}

/// The exposed name: the exporter's namespace, the metric's namespace
/// segments and its name, joined with `_`.
pub fn format_full_name(prefix: Option<&str>, namespace: &[&str], name: &str) -> (r: String)
    ensures
        r@ == full_name(opt_view(prefix), str_views(namespace@), name@),
{
    format_name_path(prefix, namespace, name, "_")
}

fn push_header(s: &mut String, family: &String, help: &String, kind: &str)
    ensures
        final(s)@ == old(s)@ + header(family@, help@, kind@),
{
    s.append("# HELP ");
    s.append(family.as_str());
    s.append(" ");
    s.append(help.as_str());
    s.append("\n");
    s.append("# TYPE ");
    s.append(family.as_str());
    s.append(" ");
    s.append(kind);
    s.append("\n");
    assert(s@ =~= old(s)@ + header(family@, help@, kind@));
}

fn push_bucket_line(
    s: &mut String,
    name: &String,
    pairs: &Vec<(&'static str, String)>,
    le: &str,
    value: u64,
)
    ensures
        final(s)@ == old(s)@ + bucket_line(name@, pair_views(pairs@), le@, decimal(value as nat)),
{
    s.append(name.as_str());
    if pairs.len() == 0 {
        s.append("_bucket{le=\"");
    } else {
        s.append("_bucket{");
        push_tags_inner(s, pairs);
        s.append(",le=\"");
    }
    s.append(le);
    s.append("\"} ");
    push_decimal(s, value);
    s.append("\n");
    assert(s@ =~= old(s)@ + bucket_line(name@, pair_views(pairs@), le@, decimal(value as nat)));
}

proof fn lemma_cumulative_step(counts: Seq<u64>, i: int)
    requires
        0 <= i,
    ensures
        cumulative(counts, i) == if counts[i] > cumulative(counts, i - 1) {
            counts[i]
        } else {
            cumulative(counts, i - 1)
        },
{
}

fn push_count(s: &mut String, name: &String, tags: &String, v: i64)
    ensures
        final(s)@ == old(s)@ + count_text(name@, tags@, v),
{
    let mut family = name.clone();
    family.append("_total");
    push_header(s, &family, name, "counter");
    s.append(family.as_str());
    s.append(tags.as_str());
    s.append(" ");
    push_signed_decimal(s, v);
    s.append("\n");
    assert(s@ =~= old(s)@ + count_text(name@, tags@, v));
}

fn push_gauge(s: &mut String, name: &String, tags: &String, value: &String)
    ensures
        final(s)@ == old(s)@ + gauge_text(name@, tags@, value@),
{
    push_header(s, name, name, "gauge");
    s.append(name.as_str());
    s.append(tags.as_str());
    s.append(" ");
    s.append(value.as_str());
    s.append("\n");
    assert(s@ =~= old(s)@ + gauge_text(name@, tags@, value@));
}

fn push_histogram(
    s: &mut String,
    name: &String,
    pairs: &Vec<(&'static str, String)>,
    buckets: &Vec<(String, u64)>,
    sum: &String,
    count: u64,
)
    ensures
        final(s)@ == old(s)@ + histogram_text(
            name@,
            pair_views(pairs@),
            buckets@.map_values(|b: (String, u64)| (b.0@, b.1)),
            sum@,
            count,
        ),
{
    let ghost pv = pair_views(pairs@);
    let ghost bv = buckets@.map_values(|b: (String, u64)| (b.0@, b.1));
    let ghost counts = bv.map_values(|b: (Seq<char>, u64)| b.1);
    let tags = format_tags(pairs);
    push_header(s, name, name, "histogram");
    let ghost after_header = s@;
    let n = buckets.len();
    let mut cum: u64 = 0;
    let mut i: usize = 0;
    while i < n
        invariant
            n == buckets@.len(),
            bv == buckets@.map_values(|b: (String, u64)| (b.0@, b.1)),
            counts == bv.map_values(|b: (Seq<char>, u64)| b.1),
            i <= n,
            cum == cumulative(counts, i - 1),
            s@ == after_header + bucket_lines(name@, pv, bv, i as int),
            pv == pair_views(pairs@),
        decreases n - i,
    {
        let (le, c) = &buckets[i];
        proof {
            lemma_cumulative_step(counts, i as int);
            assert(counts[i as int] == *c);
        }
        if *c > cum {
            cum = *c;
        }
        push_bucket_line(s, name, pairs, le.as_str(), cum);
        proof {
            assert(bv[i as int].0 == le@);
        }
        i = i + 1;
    }
    push_bucket_line(s, name, pairs, "+Inf", count);
    s.append(name.as_str());
    s.append("_sum");
    s.append(tags.as_str());
    s.append(" ");
    s.append(sum.as_str());
    s.append("\n");
    s.append(name.as_str());
    s.append("_count");
    s.append(tags.as_str());
    s.append(" ");
    push_decimal(s, count);
    s.append("\n");
    assert(bv.len() == n);
    assert(s@ =~= old(s)@ + histogram_text(name@, pv, bv, sum@, count));
}

/// Append the exposition of one metric.
pub fn push_metric(s: &mut String, prefix: Option<&str>, m: &FlushedMetric, t: &FloatTexts)
    requires
        texts_fit(m.value, *t),
    ensures
        final(s)@ == old(s)@ + metric_text(
            opt_view(prefix),
            *m,
            *t,
        ),
{
    let name = format_full_name(prefix, m.namespace, m.metric_name);
    let tags = format_tags(&m.tags.pairs);
    match &m.value {
        FlushedValue::Count(v) => {
            push_count(s, &name, &tags, *v);
        },
        FlushedValue::Gauge(_) => {
            match t {
                FloatTexts::Gauge { value } => {
                    push_gauge(s, &name, &tags, value);
                },
                _ => {},
            }
        },
        FlushedValue::Histogram(h) => {
            match t {
                FloatTexts::Histogram { buckets, sum } => {
                    push_histogram(s, &name, &m.tags.pairs, buckets, sum, h.count());
                },
                _ => {},
            }
        },
    }
}

/// Render metrics into the Prometheus text exposition format. `texts[i]`
/// holds the floating-point parts of `metrics[i]`, written out as text.
pub fn render(prefix: Option<&str>, metrics: &[FlushedMetric], texts: &[FloatTexts]) -> (r: String)
    requires
        metrics@.len() == texts@.len(),
        forall|i: int| 0 <= i < metrics@.len() ==> texts_fit(#[trigger] metrics@[i].value, texts@[i]),
    ensures
        r@ == render_text(
            opt_view(prefix),
            metrics@,
            texts@,
            metrics@.len() as int,
        ),
{
    let ghost pv = opt_view(prefix);
    let mut s = String::new();
    let n = metrics.len();
    let mut i: usize = 0;
    while i < n
        invariant
            n == metrics@.len(),
            n == texts@.len(),
            forall|j: int| 0 <= j < metrics@.len() ==> texts_fit(#[trigger] metrics@[j].value, texts@[j]),
            i <= n,
            pv == opt_view(prefix),
            s@ == render_text(pv, metrics@, texts@, i as int),
        decreases n - i,
    {
        let ghost before = s@;
        let m = &metrics[i];
        let t = &texts[i];
        assert(*m == metrics@[i as int]);
        assert(*t == texts@[i as int]);
        push_metric(&mut s, prefix, m, t);
        proof {
            assert(render_text(pv, metrics@, texts@, i + 1) == render_text(pv, metrics@, texts@, i as int)
                + metric_text(pv, metrics@[i as int], texts@[i as int]));
            assert(s@ == before + metric_text(pv, *m, *t));
        }
        i = i + 1;
    }
    s
}

} // verus!
