use vstd::prelude::*;

use crate::export::{FlushedMetric, FlushedValue};
use crate::text::{
    byte_len, decimal, format_name_path, lemma_joined_prepend, joined, lemma_utf8_len_concat, name_path, opt_view, push_decimal,
    push_signed_decimal, signed_decimal, str_views, utf8_len,
};

verus! {

/// How histogram data is emitted over StatsD.
pub enum HistogramExportMode {
    /// Summary statistics as gauges: `.count`, `.avg`, and one line per
    /// percentile. Each percentile is the bit pattern of a double in
    /// `[0, 1]` (e.g. `0.5`, `0.99`).
    Percentiles(Vec<u64>),
    /// A DogStatsD distribution line (`|d`) carrying the mean.
    Distribution,
}

impl Default for HistogramExportMode {
    /// Percentiles 0.5, 0.9, 0.95 and 0.99.
    fn default() -> (m: Self)
        ensures
            m matches HistogramExportMode::Percentiles(ps) && ps@ == seq![
                0x3fe0000000000000u64,
                0x3feccccccccccccdu64,
                0x3fee666666666666u64,
                0x3fefae147ae147aeu64,
            ],
    {
        let mut ps: Vec<u64> = Vec::new();
        ps.push(0x3fe0000000000000u64);
        ps.push(0x3feccccccccccccdu64);
        ps.push(0x3fee666666666666u64);
        ps.push(0x3fefae147ae147aeu64);
        HistogramExportMode::Percentiles(ps)
    }
}

/// The parts of a metric's StatsD lines that come from floating-point
/// values, already written out as text by the caller.
pub enum StatsdTexts {
    Count,
    /// A gauge's value.
    Gauge { value: String },
    /// A histogram sent as a distribution: its mean.
    Distribution { mean: String },
    /// A histogram sent as percentiles: its mean, and for each percentile
    /// its label (e.g. `p99`) and estimated value.
    Percentiles { avg: String, quantiles: Vec<(String, String)> },
}

/// Whether the texts are of the kind the value and histogram mode need.
pub open spec fn statsd_texts_fit(v: FlushedValue, mode: HistogramExportMode, t: StatsdTexts) -> bool {
    match v {
        FlushedValue::Count(_) => t is Count,
        FlushedValue::Gauge(_) => t is Gauge,
        FlushedValue::Histogram(_) => match mode {
            HistogramExportMode::Distribution => t is Distribution,
            HistogramExportMode::Percentiles(ps) => t matches StatsdTexts::Percentiles {
                quantiles,
                ..
            } && quantiles@.len() == ps@.len(),
        },
    }
}

/// One tag in DogStatsD format: `key:value`.
pub open spec fn statsd_tag(p: (Seq<char>, Seq<char>)) -> Seq<char> {
    p.0 + ":"@ + p.1
}

/// The tag suffix: `|#k:v,...` with the default tags first, or nothing when
/// there are no tags at all.
pub open spec fn statsd_tags(defaults: Seq<(Seq<char>, Seq<char>)>, pairs: Seq<(Seq<char>, Seq<char>)>) -> Seq<char> {
    let all = defaults + pairs;
    if all.len() == 0 {
        Seq::empty()
    } else {
        "|#"@ + joined(all.map_values(|p: (Seq<char>, Seq<char>)| statsd_tag(p)), ","@)
    }
}

/// The character views of the default tags.
pub open spec fn default_views(defaults: Seq<(String, String)>) -> Seq<(Seq<char>, Seq<char>)> {
    defaults.map_values(|p: (String, String)| (p.0@, p.1@))
}

/// The character views of a metric's tags.
pub open spec fn metric_tag_views(pairs: Seq<(&'static str, String)>) -> Seq<(Seq<char>, Seq<char>)> {
    pairs.map_values(|p: (&'static str, String)| (p.0@, p.1@))
}

/// A `name:value|kind` line followed by the tag suffix.
pub open spec fn statsd_line(name: Seq<char>, value: Seq<char>, kind: Seq<char>, tags: Seq<char>) -> Seq<char> {
    name + ":"@ + value + "|"@ + kind + tags
}

/// The percentile lines, `name.label:value|g` each.
pub open spec fn percentile_lines(name: Seq<char>, quantiles: Seq<(String, String)>, tags: Seq<char>) -> Seq<Seq<char>> {
    quantiles.map_values(|q: (String, String)| statsd_line(name + "."@ + q.0@, q.1@, "g"@, tags))
}

/// The StatsD lines of one metric.
pub open spec fn metric_lines(
    prefix: Option<Seq<char>>,
    defaults: Seq<(Seq<char>, Seq<char>)>,
    m: FlushedMetric,
    t: StatsdTexts,
) -> Seq<Seq<char>> {
    let name = name_path(prefix, str_views(m.namespace@), m.metric_name@, "."@);
    let tags = statsd_tags(defaults, metric_tag_views(m.tags.pairs@));
    match m.value {
        FlushedValue::Count(v) => seq![statsd_line(name, signed_decimal(v as int), "c"@, tags)],
        FlushedValue::Gauge(_) => match t {
            StatsdTexts::Gauge { value } => seq![statsd_line(name, value@, "g"@, tags)],
            _ => Seq::empty(),
        },
        FlushedValue::Histogram(h) => match t {
            StatsdTexts::Distribution { mean } => seq![statsd_line(name, mean@, "d"@, tags)],
            StatsdTexts::Percentiles { avg, quantiles } => seq![
                statsd_line(name + ".count"@, decimal(h.spec_counts().spec_count() as nat), "g"@, tags),
                statsd_line(name + ".avg"@, avg@, "g"@, tags),
            ] + percentile_lines(name, quantiles@, tags),
            _ => Seq::empty(),
        },
    }
}

proof fn lemma_line_shape(
    full: Seq<char>,
    name: Seq<char>,
    value: Seq<char>,
    kind: Seq<char>,
    tags: Seq<char>,
)
    requires
        name.len() <= full.len(),
        full.take(name.len() as int) == name,
    ensures
        ({
            let l = statsd_line(full, value, kind, tags);
            &&& name.len() + tags.len() <= l.len()
            &&& l.take(name.len() as int) == name
            &&& l.skip(l.len() - tags.len()) == tags
        }),
{
    let l = statsd_line(full, value, kind, tags);
    let body = full + ":"@ + value + "|"@ + kind;
    assert(l == body + tags);
    assert(l.skip(l.len() - tags.len()) =~= tags);
    assert forall|i: int| 0 <= i < name.len() implies l[i] == name[i] by {
        assert(l[i] == full[i]);
        assert(full.take(name.len() as int)[i] == full[i]);
    }
    assert(l.take(name.len() as int) =~= name);
}

/// Every StatsD line of a metric carries the metric's full name at its
/// start and the metric's tag suffix (the default tags, then its own) at
/// its end: percentile, count and average lines included.
pub proof fn lemma_metric_lines_named_and_tagged(
    prefix: Option<Seq<char>>,
    defaults: Seq<(Seq<char>, Seq<char>)>,
    m: FlushedMetric,
    t: StatsdTexts,
    j: int,
)
    requires
        0 <= j < metric_lines(prefix, defaults, m, t).len(),
    ensures
        ({
            let l = metric_lines(prefix, defaults, m, t)[j];
            let name = name_path(prefix, str_views(m.namespace@), m.metric_name@, "."@);
            let tags = statsd_tags(defaults, metric_tag_views(m.tags.pairs@));
            &&& name.len() + tags.len() <= l.len()
            &&& l.take(name.len() as int) == name
            &&& l.skip(l.len() - tags.len()) == tags
        }),
{
    let name = name_path(prefix, str_views(m.namespace@), m.metric_name@, "."@);
    let tags = statsd_tags(defaults, metric_tag_views(m.tags.pairs@));
    let ml = metric_lines(prefix, defaults, m, t);
    assert(name.take(name.len() as int) =~= name);
    match m.value {
        FlushedValue::Count(v) => {
            lemma_line_shape(name, name, signed_decimal(v as int), "c"@, tags);
        },
        FlushedValue::Gauge(_) => match t {
            StatsdTexts::Gauge { value } => {
                lemma_line_shape(name, name, value@, "g"@, tags);
            },
            _ => {},
        },
        FlushedValue::Histogram(h) => match t {
            StatsdTexts::Distribution { mean } => {
                lemma_line_shape(name, name, mean@, "d"@, tags);
            },
            StatsdTexts::Percentiles { avg, quantiles } => {
                let pl = percentile_lines(name, quantiles@, tags);
                assert(ml == seq![
                    statsd_line(name + ".count"@, decimal(h.spec_counts().spec_count() as nat), "g"@, tags),
                    statsd_line(name + ".avg"@, avg@, "g"@, tags),
                ] + pl);
                if j == 0 {
                    let f = name + ".count"@;
                    assert(f.take(name.len() as int) =~= name);
                    lemma_line_shape(f, name, decimal(h.spec_counts().spec_count() as nat), "g"@, tags);
                } else if j == 1 {
                    let f = name + ".avg"@;
                    assert(f.take(name.len() as int) =~= name);
                    lemma_line_shape(f, name, avg@, "g"@, tags);
                } else {
                    let q = quantiles@[j - 2];
                    assert(ml[j] == pl[j - 2]);
                    let f = name + "."@ + q.0@;
                    assert(f.take(name.len() as int) =~= name);
                    lemma_line_shape(f, name, q.1@, "g"@, tags);
                }
            },
            _ => {},
        },
    }
}

/// How many lines a metric takes: one for a count, a gauge, or a histogram
/// sent as a distribution; a histogram sent as percentiles takes a count
/// line, an average line and one line per percentile.
pub proof fn lemma_metric_line_count(
    prefix: Option<Seq<char>>,
    defaults: Seq<(Seq<char>, Seq<char>)>,
    m: FlushedMetric,
    mode: HistogramExportMode,
    t: StatsdTexts,
)
    requires
        statsd_texts_fit(m.value, mode, t),
    ensures
        metric_lines(prefix, defaults, m, t).len() == match (m.value, mode) {
            (FlushedValue::Histogram(_), HistogramExportMode::Percentiles(ps)) => 2 + ps@.len() as int,
            _ => 1int,
        },
{
}

/// The lines of the first `n` metrics, one metric after another.
pub open spec fn all_lines(
    prefix: Option<Seq<char>>,
    defaults: Seq<(Seq<char>, Seq<char>)>,
    metrics: Seq<FlushedMetric>,
    texts: Seq<StatsdTexts>,
    n: int,
) -> Seq<Seq<char>>
    decreases n,
{
    if n <= 0 {
        Seq::empty()
    } else {
        all_lines(prefix, defaults, metrics, texts, n - 1) + metric_lines(
            prefix,
            defaults,
            metrics[n - 1],
            texts[n - 1],
        )
    }
}

/// Whether the socket behind a Unix path must be opened again before a
/// send: the file there now has another inode than the one last connected
/// to. An inode of 0 stands for a path that could not be read, which is no
/// reason to reconnect.
pub fn needs_reconnect(current_inode: u64, stored_inode: u64) -> (r: bool)
    ensures
        r == (current_inode != stored_inode && current_inode != 0),
{
    current_inode != stored_inode && current_inode != 0
}

/// The tag suffix: `|#k:v,...` with the default tags first, or nothing when
/// there are no tags at all.
pub fn format_tags(defaults: &Vec<(String, String)>, pairs: &Vec<(&'static str, String)>) -> (r: String)
    ensures
        r@ == statsd_tags(default_views(defaults@), metric_tag_views(pairs@)),
{
    let ghost all = default_views(defaults@) + metric_tag_views(pairs@);
    let ghost parts = all.map_values(|p: (Seq<char>, Seq<char>)| statsd_tag(p));
    let nd = defaults.len();
    let np = pairs.len();
    let mut s = String::new();
    if nd == 0 && np == 0 {
        assert(all.len() == 0);
        return s;
    }
    s.append("|#");
    let ghost start = s@;
    let mut i: usize = 0;
    assert(parts.take(0) =~= Seq::<Seq<char>>::empty());
    while i < nd
        invariant
            nd == defaults@.len(),
            np == pairs@.len(),
            all == default_views(defaults@) + metric_tag_views(pairs@),
            parts == all.map_values(|p: (Seq<char>, Seq<char>)| statsd_tag(p)),
            parts.len() == nd + np,
            i <= nd,
            s@ == start + joined(parts.take(i as int), ","@),
        decreases nd - i,
    {
        if i > 0 {
            s.append(",");
        }
        let (k, v) = &defaults[i];
        s.append(k.as_str());
        s.append(":");
        s.append(v.as_str());
        assert(all[i as int] == (k@, v@));
        proof {
            let t = parts.take(i as int + 1);
            assert(t.drop_last() =~= parts.take(i as int));
            if i == 0 {
                assert(joined(parts.take(0), ","@) =~= Seq::<char>::empty());
            }
            assert(s@ =~= start + joined(t, ","@));
        }
        i = i + 1;
    }
    let mut j: usize = 0;
    while j < np
        invariant
            nd == defaults@.len(),
            np == pairs@.len(),
            all == default_views(defaults@) + metric_tag_views(pairs@),
            parts == all.map_values(|p: (Seq<char>, Seq<char>)| statsd_tag(p)),
            parts.len() == nd + np,
            j <= np,
            s@ == start + joined(parts.take(nd + j), ","@),
        decreases np - j,
    {
        if nd > 0 || j > 0 {
            s.append(",");
        }
        let (k, v) = &pairs[j];
        s.append(k);
        s.append(":");
        s.append(v.as_str());
        assert(all[nd + j] == (k@, v@));
        proof {
            let t = parts.take(nd + j + 1);
            assert(t.drop_last() =~= parts.take(nd + j));
            if nd + j == 0 {
                assert(joined(parts.take(0), ","@) =~= Seq::<char>::empty());
            }
            assert(s@ =~= start + joined(t, ","@));
        }
        j = j + 1;
    }
    assert(parts.take(nd + np) =~= parts);
    s
}

fn push_line(out: &mut Vec<String>, l: String)
    ensures
        final(out)@.map_values(|x: String| x@) == old(out)@.map_values(|x: String| x@).push(l@),
{
    out.push(l);
    assert(out@.map_values(|x: String| x@) =~= old(out)@.map_values(|x: String| x@).push(l@));
}

fn line(name: &String, suffix: &str, value: &String, kind: &str, tags: &String) -> (r: String)
    ensures
        r@ == statsd_line(name@ + suffix@, value@, kind@, tags@),
{
    let mut s = name.clone();
    s.append(suffix);
    s.append(":");
    s.append(value.as_str());
    s.append("|");
    s.append(kind);
    s.append(tags.as_str());
    assert(s@ =~= statsd_line(name@ + suffix@, value@, kind@, tags@));
    s
}

fn number_text(v: u64) -> (r: String)
    ensures
        r@ == decimal(v as nat),
{
    let mut s = String::new();
    push_decimal(&mut s, v);
    assert(s@ =~= decimal(v as nat));
    s
}

fn signed_text(v: i64) -> (r: String)
    ensures
        r@ == signed_decimal(v as int),
{
    let mut s = String::new();
    push_signed_decimal(&mut s, v);
    assert(s@ =~= signed_decimal(v as int));
    s
}

/// Append the StatsD lines of one metric to `out`.
pub fn push_metric_lines(
    out: &mut Vec<String>,
    prefix: Option<&str>,
    defaults: &Vec<(String, String)>,
    m: &FlushedMetric,
    t: &StatsdTexts,
)
    ensures
        final(out)@.map_values(|l: String| l@) == old(out)@.map_values(|l: String| l@) + metric_lines(
            opt_view(prefix),
            default_views(defaults@),
            *m,
            *t,
        ),
{
    let ghost old_views = out@.map_values(|l: String| l@);
    proof {
        reveal_strlit("");
    }
    let name = format_name_path(prefix, m.namespace, m.metric_name, ".");
    let tags = format_tags(defaults, &m.tags.pairs);
    let ghost expected = metric_lines(opt_view(prefix), default_views(defaults@), *m, *t);
    let empty = String::new();
    match &m.value {
        FlushedValue::Count(v) => {
            push_line(out, line(&name, "", &signed_text(*v), "c", &tags));
        },
        FlushedValue::Gauge(_) => {
            match t {
                StatsdTexts::Gauge { value } => {
                    push_line(out, line(&name, "", value, "g", &tags));
                },
                _ => {},
            }
        },
        FlushedValue::Histogram(h) => {
            match t {
                StatsdTexts::Distribution { mean } => {
                    push_line(out, line(&name, "", mean, "d", &tags));
                },
                StatsdTexts::Percentiles { avg, quantiles } => {
                    push_line(out, line(&name, ".count", &number_text(h.count()), "g", &tags));
                    push_line(out, line(&name, ".avg", avg, "g", &tags));
                    let ghost base = out@.map_values(|l: String| l@);
                    let ghost ql = percentile_lines(name@, quantiles@, tags@);
                    let n = quantiles.len();
                    let mut i: usize = 0;
                    while i < n
                        invariant
                            n == quantiles@.len(),
                            ql == percentile_lines(name@, quantiles@, tags@),
                            i <= n,
                            out@.map_values(|l: String| l@) == base + ql.take(i as int),
                        decreases n - i,
                    {
                        let (label, value) = &quantiles[i];
                        let mut sub = String::new();
                        sub.append(".");
                        sub.append(label.as_str());
                        let l = line(&name, sub.as_str(), value, "g", &tags);
                        assert(name@ + sub@ =~= name@ + "."@ + label@);
                        assert(ql[i as int] == l@);
                        push_line(out, l);
                        proof {
                            assert(ql.take(i as int + 1) =~= ql.take(i as int).push(ql[i as int]));
                        }
                        i = i + 1;
                    }
                    assert(ql.take(n as int) =~= ql);
                },
                _ => {},
            }
        },
    }
    assert(out@.map_values(|l: String| l@) =~= old_views + expected);
}


/// The StatsD lines of all metrics, one metric after another.
pub fn format_lines(
    prefix: Option<&str>,
    defaults: &Vec<(String, String)>,
    metrics: &[FlushedMetric],
    texts: &[StatsdTexts],
) -> (r: Vec<String>)
    requires
        metrics@.len() == texts@.len(),
    ensures
        r@.map_values(|l: String| l@) == all_lines(
            opt_view(prefix),
            default_views(defaults@),
            metrics@,
            texts@,
            metrics@.len() as int,
        ),
{
    let ghost pv = opt_view(prefix);
    let ghost dv = default_views(defaults@);
    let mut out: Vec<String> = Vec::new();
    let n = metrics.len();
    let mut i: usize = 0;
    assert(out@.map_values(|l: String| l@) =~= Seq::<Seq<char>>::empty());
    while i < n
        invariant
            n == metrics@.len(),
            n == texts@.len(),
            pv == opt_view(prefix),
            dv == default_views(defaults@),
            i <= n,
            out@.map_values(|l: String| l@) == all_lines(pv, dv, metrics@, texts@, i as int),
        decreases n - i,
    {
        let m = &metrics[i];
        let t = &texts[i];
        push_metric_lines(&mut out, prefix, defaults, m, t);
        proof {
            assert(all_lines(pv, dv, metrics@, texts@, i + 1) == all_lines(pv, dv, metrics@, texts@, i as int)
                + metric_lines(pv, dv, metrics@[i as int], texts@[i as int]));
        }
        i = i + 1;
    }
    out
}

/// Greedy packing of lines into datagrams of at most `max` bytes: lines go
/// into the current datagram, separated by newlines, until the next one
/// would not fit; then the datagram is sent and a new one started. `buf` is
/// the datagram being filled.
pub open spec fn pack(buf: Seq<char>, lines: Seq<Seq<char>>, max: nat) -> Seq<Seq<char>>
    decreases lines.len(),
{
    if lines.len() == 0 {
        if buf.len() == 0 {
            Seq::empty()
        } else {
            seq![buf]
        }
    } else {
        let line = lines[0];
        if buf.len() > 0 && utf8_len(buf) + 1 + utf8_len(line) > max {
            seq![buf] + pack(line, lines.drop_first(), max)
        } else if buf.len() > 0 {
            pack(buf + "\n"@ + line, lines.drop_first(), max)
        } else {
            pack(line, lines.drop_first(), max)
        }
    }
}

proof fn lemma_pack_step(buf: Seq<char>, lines: Seq<Seq<char>>, max: nat, i: int)
    requires
        0 <= i < lines.len(),
    ensures
        pack(buf, lines.skip(i), max) == ({
            let line = lines[i];
            if buf.len() > 0 && utf8_len(buf) + 1 + utf8_len(line) > max {
                seq![buf] + pack(line, lines.skip(i + 1), max)
            } else if buf.len() > 0 {
                pack(buf + "\n"@ + line, lines.skip(i + 1), max)
            } else {
                pack(line, lines.skip(i + 1), max)
            }
        }),
{
    assert(lines.skip(i).drop_first() =~= lines.skip(i + 1));
    assert(lines.skip(i)[0] == lines[i]);
}

/// Pack lines into datagrams of at most `max` bytes, newline-separated. A
/// line longer than `max` travels in a datagram of its own.
pub fn batch_lines(lines: &Vec<String>, max: usize) -> (r: Vec<String>)
    ensures
        r@.map_values(|l: String| l@) == pack(Seq::empty(), lines@.map_values(|l: String| l@), max as nat),
{
    let ghost lv = lines@.map_values(|l: String| l@);
    let mut out: Vec<String> = Vec::new();
    let mut buf = String::new();
    let n = lines.len();
    let mut i: usize = 0;
    proof {
        reveal_strlit("\n");
        assert(lv.skip(0) =~= lv);
        assert(out@.map_values(|l: String| l@) =~= Seq::<Seq<char>>::empty());
    }
    while i < n
        invariant
            n == lines@.len(),
            lv == lines@.map_values(|l: String| l@),
            lv.len() == n,
            i <= n,
            out@.map_values(|l: String| l@) + pack(buf@, lv.skip(i as int), max as nat) == pack(
                Seq::empty(),
                lv,
                max as nat,
            ),
        decreases n - i,
    {
        let line = &lines[i];
        let ghost b0 = buf@;
        let ghost o0 = out@.map_values(|l: String| l@);
        proof {
            lemma_pack_step(buf@, lv, max as nat, i as int);
            assert(lv[i as int] == line@);
        }
        let buf_len = byte_len(&buf);
        let line_len = byte_len(line);
        if !buf.as_str().is_empty() && (buf_len as u128) + 1 + (line_len as u128) > (max as u128) {
            let ghost before = out@.map_values(|l: String| l@);
            let full = buf;
            buf = String::new();
            out.push(full);
            proof {
                assert(out@.map_values(|l: String| l@) =~= before.push(full@));
                assert(before.push(full@) + pack(line@, lv.skip(i as int + 1), max as nat) =~= before + (
                seq![full@] + pack(line@, lv.skip(i as int + 1), max as nat)));
            }
            buf.append(line.as_str());
            assert(buf@ =~= line@);
            assert(o0 + pack(b0, lv.skip(i as int), max as nat) == out@.map_values(|l: String| l@) + pack(buf@, lv.skip(i as int + 1), max as nat));
        } else if !buf.as_str().is_empty() {
            buf.append("\n");
            buf.append(line.as_str());
            assert(buf@ =~= b0 + "\n"@ + line@);
            assert(o0 + pack(b0, lv.skip(i as int), max as nat) == out@.map_values(|l: String| l@) + pack(buf@, lv.skip(i as int + 1), max as nat));
        } else {
            buf.append(line.as_str());
            assert(buf@ =~= line@);
            assert(o0 + pack(b0, lv.skip(i as int), max as nat) == out@.map_values(|l: String| l@) + pack(buf@, lv.skip(i as int + 1), max as nat));
        }
        i = i + 1;
    }
    proof {
        assert(lv.skip(n as int) =~= Seq::<Seq<char>>::empty());
    }
    if !buf.as_str().is_empty() {
        let ghost before = out@.map_values(|l: String| l@);
        out.push(buf);
        assert(out@.map_values(|l: String| l@) =~= before.push(buf@));
    }
    out
}

/// The datagrams that carry the metrics: their StatsD lines, packed into
/// datagrams of at most `max` bytes.
pub fn format_datagrams(
    prefix: Option<&str>,
    defaults: &Vec<(String, String)>,
    metrics: &[FlushedMetric],
    texts: &[StatsdTexts],
    max: usize,
) -> (r: Vec<String>)
    requires
        metrics@.len() == texts@.len(),
    ensures
        r@.map_values(|l: String| l@) == pack(
            Seq::empty(),
            all_lines(
                opt_view(prefix),
                default_views(defaults@),
                metrics@,
                texts@,
                metrics@.len() as int,
            ),
            max as nat,
        ),
        datagram_laws(
            all_lines(
                opt_view(prefix),
                default_views(defaults@),
                metrics@,
                texts@,
                metrics@.len() as int,
            ),
            r@.map_values(|l: String| l@),
            max as nat,
        ),
{
    let lines = format_lines(prefix, defaults, metrics, texts);
    let r = batch_lines(&lines, max);
    proof {
        let ls = all_lines(opt_view(prefix), default_views(defaults@), metrics@, texts@, metrics@.len() as int);
        lemma_all_lines_nonempty(opt_view(prefix), default_views(defaults@), metrics@, texts@, metrics@.len() as int);
        lemma_datagrams_keep_lines(ls, max as nat);
        lemma_datagrams_fit(ls, max as nat);
        lemma_datagrams_greedy(ls, max as nat);
    }
    r
}

/// What batching promises of the datagrams `ds` made from `lines`: joined
/// with newlines they give the lines back (no line is split or lost), none
/// is empty, there are none for no lines, each fits in `max` bytes unless
/// it is a single line that is longer, and each but the last is full (the
/// line that begins the next would not have fitted behind it).
pub open spec fn datagram_laws(lines: Seq<Seq<char>>, ds: Seq<Seq<char>>, max: nat) -> bool {
    &&& joined(ds, "\n"@) == joined(lines, "\n"@)
    &&& forall|d: int| 0 <= d < ds.len() ==> (#[trigger] ds[d]).len() > 0
    &&& lines.len() == 0 ==> ds.len() == 0
    &&& forall|d: int| 0 <= d < ds.len() ==> utf8_len(#[trigger] ds[d]) <= max || lines.contains(ds[d])
    &&& forall|d: int|
        0 <= d < ds.len() - 1 ==> exists|i: int|
            0 <= i < lines.len() && begins_with_line(#[trigger] ds[d + 1], lines[i]) && utf8_len(ds[d]) + 1
                + utf8_len(lines[i]) > max
}

/// Every StatsD line has at least one character (each holds a `:`).
pub proof fn lemma_all_lines_nonempty(
    prefix: Option<Seq<char>>,
    defaults: Seq<(Seq<char>, Seq<char>)>,
    metrics: Seq<FlushedMetric>,
    texts: Seq<StatsdTexts>,
    n: int,
)
    ensures
        forall|j: int|
            0 <= j < all_lines(prefix, defaults, metrics, texts, n).len() ==> (#[trigger] all_lines(
                prefix,
                defaults,
                metrics,
                texts,
                n,
            )[j]).len() > 0,
    decreases n,
{
    reveal_strlit(":");
    if n > 0 {
        lemma_all_lines_nonempty(prefix, defaults, metrics, texts, n - 1);
        let prev = all_lines(prefix, defaults, metrics, texts, n - 1);
        let ml = metric_lines(prefix, defaults, metrics[n - 1], texts[n - 1]);
        let all = all_lines(prefix, defaults, metrics, texts, n);
        assert(all == prev + ml);
        assert forall|j: int| 0 <= j < ml.len() implies (#[trigger] ml[j]).len() > 0 by {
            let m = metrics[n - 1];
            let name = name_path(prefix, str_views(m.namespace@), m.metric_name@, "."@);
            match m.value {
                FlushedValue::Histogram(h) => match texts[n - 1] {
                    StatsdTexts::Percentiles { avg, quantiles } => {
                        let tags = statsd_tags(defaults, metric_tag_views(m.tags.pairs@));
                        if j >= 2 {
                            let pl = percentile_lines(name, quantiles@, tags);
                            assert(ml[j] == pl[j - 2]);
                        }
                    },
                    _ => {},
                },
                _ => {},
            }
        }
        assert forall|j: int| 0 <= j < all.len() implies (#[trigger] all[j]).len() > 0 by {
            if j < prev.len() {
                assert(all[j] == prev[j]);
            } else {
                assert(all[j] == ml[j - prev.len()]);
            }
        }
    }
}


proof fn lemma_pack_joined(buf: Seq<char>, lines: Seq<Seq<char>>, max: nat)
    requires
        forall|j: int| 0 <= j < lines.len() ==> (#[trigger] lines[j]).len() > 0,
    ensures
        buf.len() > 0 ==> joined(pack(buf, lines, max), "\n"@) == joined(seq![buf] + lines, "\n"@),
        buf.len() == 0 ==> joined(pack(buf, lines, max), "\n"@) == joined(lines, "\n"@),
    decreases lines.len(),
{
    let nl = "\n"@;
    if lines.len() == 0 {
        if buf.len() > 0 {
            assert(seq![buf] + lines =~= seq![buf]);
        }
    } else {
        let line = lines[0];
        let rest = lines.drop_first();
        assert(lines =~= seq![line] + rest);
        assert forall|j: int| 0 <= j < rest.len() implies (#[trigger] rest[j]).len() > 0 by {
            assert(rest[j] == lines[j + 1]);
        }
        assert(line.len() > 0) by {
            assert(lines[0] == line);
        }
        lemma_joined_prepend(line, rest, nl);
        if buf.len() > 0 && utf8_len(buf) + 1 + utf8_len(line) > max {
            lemma_pack_joined(line, rest, max);
            let x = pack(line, rest, max);
            assert(x.len() > 0) by {
                lemma_pack_nonempty(line, rest, max);
            }
            lemma_joined_prepend(buf, x, nl);
            lemma_joined_prepend(buf, lines, nl);
        } else if buf.len() > 0 {
            let merged = buf + nl + line;
            lemma_pack_joined(merged, rest, max);
            lemma_joined_prepend(merged, rest, nl);
            lemma_joined_prepend(buf, lines, nl);
            assert(joined(seq![merged] + rest, nl) =~= joined(seq![buf] + lines, nl));
        } else {
            lemma_pack_joined(line, rest, max);
        }
    }
}

proof fn lemma_pack_nonempty(buf: Seq<char>, lines: Seq<Seq<char>>, max: nat)
    requires
        buf.len() > 0,
    ensures
        pack(buf, lines, max).len() > 0,
    decreases lines.len(),
{
    if lines.len() > 0 {
        let line = lines[0];
        let rest = lines.drop_first();
        if buf.len() > 0 && utf8_len(buf) + 1 + utf8_len(line) > max {
        } else {
            assert((buf + "\n"@ + line).len() > 0);
            lemma_pack_nonempty(buf + "\n"@ + line, rest, max);
        }
    }
}

/// Packing into datagrams loses and reorders nothing: the datagrams joined
/// with newlines are the lines joined with newlines (lines are never empty).
pub proof fn lemma_datagrams_keep_lines(lines: Seq<Seq<char>>, max: nat)
    requires
        forall|j: int| 0 <= j < lines.len() ==> (#[trigger] lines[j]).len() > 0,
    ensures
        joined(pack(Seq::empty(), lines, max), "\n"@) == joined(lines, "\n"@),
{
    lemma_pack_joined(Seq::empty(), lines, max);
}

proof fn lemma_newline_len()
    ensures
        utf8_len("\n"@) == 1,
{
    reveal_strlit("\n");
    let s = "\n"@;
    assert(s.len() == 1);
    assert(s[0] == '\n');
    assert(s.drop_first() =~= Seq::<char>::empty());
    assert(vstd::utf8::encode_utf8(s.drop_first()) =~= Seq::<u8>::empty());
    assert(vstd::utf8::encode_scalar(s[0] as u32).len() == 1);
}

proof fn lemma_pack_sizes(buf: Seq<char>, lines: Seq<Seq<char>>, max: nat, orig: Seq<Seq<char>>)
    requires
        buf.len() == 0 || utf8_len(buf) <= max || orig.contains(buf),
        forall|j: int| 0 <= j < lines.len() ==> orig.contains(#[trigger] lines[j]),
    ensures
        forall|d: int|
            0 <= d < pack(buf, lines, max).len() ==> utf8_len(#[trigger] pack(buf, lines, max)[d])
                <= max || orig.contains(pack(buf, lines, max)[d]),
    decreases lines.len(),
{
    let p = pack(buf, lines, max);
    if lines.len() > 0 {
        let line = lines[0];
        let rest = lines.drop_first();
        assert(orig.contains(line)) by {
            assert(lines[0] == line);
        }
        assert forall|j: int| 0 <= j < rest.len() implies orig.contains(#[trigger] rest[j]) by {
            assert(rest[j] == lines[j + 1]);
        }
        if buf.len() > 0 && utf8_len(buf) + 1 + utf8_len(line) > max {
            lemma_pack_sizes(line, rest, max, orig);
            assert forall|d: int| 0 <= d < p.len() implies utf8_len(#[trigger] p[d]) <= max || orig.contains(p[d]) by {
                if d > 0 {
                    assert(p[d] == pack(line, rest, max)[d - 1]);
                }
            }
        } else if buf.len() > 0 {
            let nl = "\n"@;
            lemma_newline_len();
            lemma_utf8_len_concat(buf, nl);
            lemma_utf8_len_concat(buf + nl, line);
            assert(utf8_len(buf + nl + line) <= max);
            lemma_pack_sizes(buf + nl + line, rest, max, orig);
            assert(p == pack(buf + nl + line, rest, max));
        } else {
            lemma_pack_sizes(line, rest, max, orig);
            assert(p == pack(line, rest, max));
        }
    } else {
        if buf.len() > 0 {
            assert(p =~= seq![buf]);
            assert forall|d: int| 0 <= d < p.len() implies utf8_len(#[trigger] p[d]) <= max || orig.contains(p[d]) by {
                assert(p[d] == buf);
            }
        }
    }
}

/// Every datagram fits in `max` bytes, except a datagram that is a single
/// line too long to fit on its own.
pub proof fn lemma_datagrams_fit(lines: Seq<Seq<char>>, max: nat)
    ensures
        forall|d: int|
            0 <= d < pack(Seq::empty(), lines, max).len() ==> utf8_len(
                #[trigger] pack(Seq::empty(), lines, max)[d],
            ) <= max || lines.contains(pack(Seq::empty(), lines, max)[d]),
{
    assert forall|j: int| 0 <= j < lines.len() implies lines.contains(#[trigger] lines[j]) by {
    }
    lemma_pack_sizes(Seq::empty(), lines, max, lines);
}

/// Every datagram holds at least one character: an empty datagram is
/// never sent.
pub proof fn lemma_pack_no_empty(buf: Seq<char>, lines: Seq<Seq<char>>, max: nat)
    ensures
        forall|d: int| 0 <= d < pack(buf, lines, max).len() ==> (#[trigger] pack(buf, lines, max)[d]).len() > 0,
    decreases lines.len(),
{
    if lines.len() == 0 {
        if buf.len() > 0 {
            assert(pack(buf, lines, max) =~= seq![buf]);
        }
    } else {
        let line = lines[0];
        let rest = lines.drop_first();
        if buf.len() > 0 && utf8_len(buf) + 1 + utf8_len(line) > max {
            lemma_pack_no_empty(line, rest, max);
            let p = pack(buf, lines, max);
            assert forall|d: int| 0 <= d < p.len() implies (#[trigger] p[d]).len() > 0 by {
                if d > 0 {
                    assert(p[d] == pack(line, rest, max)[d - 1]);
                }
            }
        } else if buf.len() > 0 {
            lemma_pack_no_empty(buf + "\n"@ + line, rest, max);
            assert(pack(buf, lines, max) == pack(buf + "\n"@ + line, rest, max));
        } else {
            lemma_pack_no_empty(line, rest, max);
            assert(pack(buf, lines, max) == pack(line, rest, max));
        }
    }
}

/// A datagram being filled with `buf` comes out first: as it is, or
/// followed by a newline and more lines.
proof fn lemma_pack_first(buf: Seq<char>, lines: Seq<Seq<char>>, max: nat)
    requires
        buf.len() > 0,
    ensures
        pack(buf, lines, max).len() > 0,
        pack(buf, lines, max)[0] == buf || (pack(buf, lines, max)[0].len() > buf.len()
            && pack(buf, lines, max)[0].take(buf.len() + 1int) == buf + "\n"@),
    decreases lines.len(),
{
    reveal_strlit("\n");
    if lines.len() > 0 {
        let line = lines[0];
        let rest = lines.drop_first();
        if utf8_len(buf) + 1 + utf8_len(line) > max {
        } else {
            let b2 = buf + "\n"@ + line;
            lemma_pack_first(b2, rest, max);
            let d = pack(b2, rest, max)[0];
            assert(b2.take(buf.len() + 1int) =~= buf + "\n"@);
            if d != b2 {
                assert(d.take(b2.len() + 1int).take(buf.len() + 1int) =~= d.take(buf.len() + 1int));
                assert((b2 + "\n"@).take(buf.len() + 1int) =~= buf + "\n"@);
            }
            assert(pack(buf, lines, max)[0] == d);
        }
    } else {
        assert(pack(buf, lines, max) =~= seq![buf]);
    }
}

/// Whether datagram `next` begins with the line `l`: it is that line, or
/// that line and a newline come first.
pub open spec fn begins_with_line(next: Seq<char>, l: Seq<char>) -> bool {
    next == l || (next.len() > l.len() && next.take(l.len() + 1int) == l + "\n"@)
}

/// Batching is greedy: each datagram but the last is full, in that the
/// line that begins the next one would not have fitted behind it.
proof fn lemma_pack_maximal(buf: Seq<char>, lines: Seq<Seq<char>>, max: nat)
    requires
        forall|j: int| 0 <= j < lines.len() ==> (#[trigger] lines[j]).len() > 0,
    ensures
        forall|d: int|
            0 <= d < pack(buf, lines, max).len() - 1 ==> exists|i: int|
                0 <= i < lines.len() && begins_with_line(#[trigger] pack(buf, lines, max)[d + 1], lines[i])
                    && utf8_len(pack(buf, lines, max)[d]) + 1 + utf8_len(lines[i]) > max,
    decreases lines.len(),
{
    if lines.len() > 0 {
        let line = lines[0];
        let rest = lines.drop_first();
        assert forall|j: int| 0 <= j < rest.len() implies (#[trigger] rest[j]).len() > 0 by {
            assert(rest[j] == lines[j + 1]);
        }
        let p = pack(buf, lines, max);
        if buf.len() > 0 && utf8_len(buf) + 1 + utf8_len(line) > max {
            let q = pack(line, rest, max);
            assert(line == lines[0]);
            lemma_pack_maximal(line, rest, max);
            lemma_pack_first(line, rest, max);
            assert(p == seq![buf] + q);
            assert forall|d: int| 0 <= d < p.len() - 1 implies exists|i: int|
                0 <= i < lines.len() && begins_with_line(#[trigger] p[d + 1], lines[i]) && utf8_len(p[d]) + 1
                    + utf8_len(lines[i]) > max by {
                if d == 0 {
                    assert(p[1] == q[0]);
                    assert(begins_with_line(p[1], lines[0]));
                } else {
                    assert(p[d] == q[d - 1]);
                    assert(p[d + 1] == q[d]);
                    let i = choose|i: int|
                        0 <= i < rest.len() && begins_with_line(#[trigger] q[d - 1 + 1], rest[i]) && utf8_len(
                            q[d - 1],
                        ) + 1 + utf8_len(rest[i]) > max;
                    assert(rest[i] == lines[i + 1]);
                }
            }
        } else {
            let b2 = if buf.len() > 0 { buf + "\n"@ + line } else { line };
            lemma_pack_maximal(b2, rest, max);
            assert(p == pack(b2, rest, max));
            assert forall|d: int| 0 <= d < p.len() - 1 implies exists|i: int|
                0 <= i < lines.len() && begins_with_line(#[trigger] p[d + 1], lines[i]) && utf8_len(p[d]) + 1
                    + utf8_len(lines[i]) > max by {
                let i = choose|i: int|
                    0 <= i < rest.len() && begins_with_line(#[trigger] p[d + 1], rest[i]) && utf8_len(p[d]) + 1
                        + utf8_len(rest[i]) > max;
                assert(rest[i] == lines[i + 1]);
            }
        }
    }
}

/// The datagrams are never empty, none at all for no lines, and each but
/// the last is full: the line that begins the next datagram would not have
/// fitted behind it.
pub proof fn lemma_datagrams_greedy(lines: Seq<Seq<char>>, max: nat)
    requires
        forall|j: int| 0 <= j < lines.len() ==> (#[trigger] lines[j]).len() > 0,
    ensures
        lines.len() == 0 ==> pack(Seq::empty(), lines, max).len() == 0,
        forall|d: int|
            0 <= d < pack(Seq::empty(), lines, max).len() ==> (#[trigger] pack(Seq::empty(), lines, max)[d]).len()
                > 0,
        forall|d: int|
            0 <= d < pack(Seq::empty(), lines, max).len() - 1 ==> exists|i: int|
                0 <= i < lines.len() && begins_with_line(#[trigger] pack(Seq::empty(), lines, max)[d + 1], lines[i])
                    && utf8_len(pack(Seq::empty(), lines, max)[d]) + 1 + utf8_len(lines[i]) > max,
{
    lemma_pack_no_empty(Seq::empty(), lines, max);
    lemma_pack_maximal(Seq::empty(), lines, max);
}

} // verus!
