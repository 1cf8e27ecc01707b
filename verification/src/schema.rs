use vstd::prelude::*;

use crate::text::{decimal, joined, push_decimal, push_joined_strings, string_views};

verus! {

/// Top-level metrics schema: tag definitions by name, top-level metrics, and
/// namespace blocks by name. As in the definition file, names are keys: no
/// list of tags or of sibling namespace blocks repeats a name (`wf`).
pub struct MetricsSchema {
    pub tags: Vec<(String, TagDefinition)>,
    /// Top-level metrics (no namespace).
    pub metrics: Vec<MetricDefinition>,
    /// Nested namespace blocks containing metrics and further namespaces.
    pub namespaces: Vec<(String, NamespaceDefinition)>,
}

/// A namespace block that can contain metrics and further nested namespaces.
pub struct NamespaceDefinition {
    pub metrics: Vec<MetricDefinition>,
    pub namespaces: Vec<(String, NamespaceDefinition)>,
}

/// Defines a reusable tag with value constraints and a default export name.
pub struct TagDefinition {
    pub value_type: TagValueType,
    /// Required when `value_type` is `Enum`: the allowed string values.
    pub values: Option<Vec<String>>,
    /// The default key name used when exporting this tag.
    pub export_name: String,
}

/// Whether a tag's values are constrained to a fixed enum or accept
/// arbitrary strings.
#[derive(Clone, Copy, Debug, PartialEq, Eq, Structural)]
pub enum TagValueType {
    Enum,
    String,
}

/// A metric definition: name, aggregation type, associated tags and
/// description.
pub struct MetricDefinition {
    pub name: String,
    pub metric_type: MetricType,
    pub tags: Vec<MetricTagRef>,
    pub description: String,
}

/// The aggregation type of a metric.
#[derive(Clone, Copy, Debug, PartialEq, Eq, Structural)]
pub enum MetricType {
    Count,
    Gauge,
    Histogram,
}

/// A reference from a metric to a globally defined tag, with optional
/// overrides.
pub struct MetricTagRef {
    /// The name of the tag definition in the top-level `tags` list.
    pub tag: String,
    /// Override the export name for this tag on this specific metric.
    pub export_name: Option<String>,
    /// Whether this tag is optional for this metric.
    pub optional: bool,
}

/// Validation errors found in a metrics schema.
pub struct ValidationError {
    pub errors: Vec<String>,
}

/// A flattened metric with its namespace path.
pub struct FlatMetric<'a> {
    pub namespace: Vec<String>,
    pub metric: &'a MetricDefinition,
}

// ---------------------------------------------------------------------------
// Ordering names
// ---------------------------------------------------------------------------

/// Lexicographic order of texts by code point: the order of `String`s.
pub open spec fn text_lt(a: Seq<char>, b: Seq<char>) -> bool
    decreases a.len(),
{
    if a.len() == 0 {
        b.len() > 0
    } else if b.len() == 0 {
        false
    } else if a[0] != b[0] {
        (a[0] as u32) < (b[0] as u32)
    } else {
        text_lt(a.drop_first(), b.drop_first())
    }
}

/// Whether `a` sorts strictly before `b`.
pub fn text_less(a: &str, b: &str) -> (r: bool)
    ensures
        r == text_lt(a@, b@),
{
    let la = a.unicode_len();
    let lb = b.unicode_len();
    let mut i: usize = 0;
    assert(a@.skip(0) =~= a@);
    assert(b@.skip(0) =~= b@);
    while i < la && i < lb
        invariant
            la == a@.len(),
            lb == b@.len(),
            i <= la,
            i <= lb,
            text_lt(a@, b@) == text_lt(a@.skip(i as int), b@.skip(i as int)),
        decreases la - i,
    {
        let ca = a.get_char(i);
        let cb = b.get_char(i);
        assert(a@.skip(i as int)[0] == ca);
        assert(b@.skip(i as int)[0] == cb);
        if ca != cb {
            return (ca as u32) < (cb as u32);
        }
        assert(a@.skip(i as int).drop_first() =~= a@.skip(i as int + 1));
        assert(b@.skip(i as int).drop_first() =~= b@.skip(i as int + 1));
        i = i + 1;
    }
    la < lb
}

/// Among the indices `rem` into `keys`, the position (in `rem`) of the
/// smallest key; the first such on ties.
pub open spec fn min_pos(keys: Seq<Seq<char>>, rem: Seq<int>) -> int
    decreases rem.len(),
{
    if rem.len() <= 1 {
        0
    } else {
        let m = min_pos(keys, rem.drop_last());
        if text_lt(keys[rem.last()], keys[rem[m]]) {
            rem.len() - 1
        } else {
            m
        }
    }
}

/// The indices `rem` ordered by their keys: repeatedly the smallest of those
/// left.
pub open spec fn sorted_order(keys: Seq<Seq<char>>, rem: Seq<int>) -> Seq<int>
    decreases rem.len(),
{
    if rem.len() == 0 {
        Seq::empty()
    } else {
        let m = min_pos(keys, rem);
        if 0 <= m < rem.len() {
            seq![rem[m]] + sorted_order(keys, rem.remove(m))
        } else {
            Seq::empty()
        }
    }
}

/// The names of a list of named entries.
pub open spec fn names_of<T>(v: Seq<(String, T)>) -> Seq<Seq<char>> {
    v.map_values(|e: (String, T)| e.0@)
}

/// The positions of the entries of `v` in increasing name order.
pub open spec fn name_order<T>(v: Seq<(String, T)>) -> Seq<int> {
    sorted_order(names_of(v), Seq::new(v.len(), |i: int| i))
}

proof fn lemma_min_pos(keys: Seq<Seq<char>>, rem: Seq<int>)
    requires
        rem.len() > 0,
    ensures
        0 <= min_pos(keys, rem) < rem.len(),
    decreases rem.len(),
{
    if rem.len() > 1 {
        lemma_min_pos(keys, rem.drop_last());
    }
}

proof fn lemma_sorted_order_in(keys: Seq<Seq<char>>, rem: Seq<int>)
    ensures
        sorted_order(keys, rem).len() == rem.len(),
        forall|k: int| 0 <= k < sorted_order(keys, rem).len() ==> rem.contains(#[trigger] sorted_order(keys, rem)[k]),
    decreases rem.len(),
{
    if rem.len() > 0 {
        lemma_min_pos(keys, rem);
        let m = min_pos(keys, rem);
        let r2 = rem.remove(m);
        lemma_sorted_order_in(keys, r2);
        let o = sorted_order(keys, rem);
        assert forall|k: int| 0 <= k < o.len() implies rem.contains(#[trigger] o[k]) by {
            if k == 0 {
                assert(rem[m] == o[0]);
            } else {
                assert(o[k] == sorted_order(keys, r2)[k - 1]);
                let j = choose|j: int| 0 <= j < r2.len() && r2[j] == o[k];
                if j < m {
                    assert(rem[j] == o[k]);
                } else {
                    assert(rem[j + 1] == o[k]);
                }
            }
        }
    }
}

/// The positions of `v`'s entries in increasing name order.
pub fn sort_names<T>(v: &Vec<(String, T)>) -> (order: Vec<usize>)
    ensures
        order@.map_values(|i: usize| i as int) == name_order(v@),
        forall|k: int| 0 <= k < order@.len() ==> #[trigger] order@[k] < v@.len(),
{
    let ghost keys = names_of(v@);
    let n = v.len();
    let mut rem: Vec<usize> = Vec::new();
    let mut i: usize = 0;
    while i < n
        invariant
            n == v@.len(),
            i <= n,
            rem@.len() == i,
            forall|k: int| 0 <= k < i ==> #[trigger] rem@[k] == k,
        decreases n - i,
    {
        rem.push(i);
        i = i + 1;
    }
    assert(rem@.map_values(|x: usize| x as int) =~= Seq::new(n as nat, |j: int| j));
    let mut order: Vec<usize> = Vec::new();
    proof {
        lemma_sorted_order_in(keys, rem@.map_values(|x: usize| x as int));
    }
    while rem.len() > 0
        invariant
            n == v@.len(),
            keys == names_of(v@),
            forall|k: int| 0 <= k < rem@.len() ==> #[trigger] rem@[k] < n,
            forall|k: int| 0 <= k < order@.len() ==> #[trigger] order@[k] < n,
            order@.map_values(|x: usize| x as int) + sorted_order(keys, rem@.map_values(|x: usize| x as int))
                == name_order(v@),
        decreases rem@.len(),
    {
        let ghost remv = rem@.map_values(|x: usize| x as int);
        let mut m: usize = 0;
        let mut j: usize = 1;
        proof {
            assert(remv.take(1).len() == 1);
        }
        while j < rem.len()
            invariant
                1 <= j <= rem@.len(),
                remv == rem@.map_values(|x: usize| x as int),
                keys == names_of(v@),
                n == v@.len(),
                forall|k: int| 0 <= k < rem@.len() ==> #[trigger] rem@[k] < n,
                m == min_pos(keys, remv.take(j as int)),
                m < j,
            decreases rem@.len() - j,
        {
            let a = rem[j];
            let b = rem[m];
            proof {
                let t = remv.take(j as int + 1);
                assert(t.drop_last() =~= remv.take(j as int));
                assert(t.last() == a as int);
                assert(remv.take(j as int)[m as int] == b as int);
            }
            if text_less(v[a].0.as_str(), v[b].0.as_str()) {
                m = j;
            }
            j = j + 1;
        }
        assert(remv.take(rem@.len() as int) =~= remv);
        let idx = rem.remove(m);
        proof {
            lemma_min_pos(keys, remv);
            assert(rem@.map_values(|x: usize| x as int) =~= remv.remove(m as int));
        }
        let ghost before = order@.map_values(|x: usize| x as int);
        order.push(idx);
        proof {
            assert(order@.map_values(|x: usize| x as int) =~= before.push(idx as int));
            assert(before.push(idx as int) + sorted_order(keys, remv.remove(m as int)) =~= before + (seq![remv[m as int]] + sorted_order(keys, remv.remove(m as int))));
        }
    }
    order
}


// ---------------------------------------------------------------------------
// Flattening the namespace tree
// ---------------------------------------------------------------------------

/// The character views of a namespace path.
pub open spec fn path_view(path: Seq<String>) -> Seq<Seq<char>> {
    string_views(path)
}

/// A flattened metric seen as its namespace path and the metric.
pub open spec fn flat_view(f: FlatMetric) -> (Seq<Seq<char>>, MetricDefinition) {
    (path_view(f.namespace@), *f.metric)
}

/// The metrics of a namespace block under `path`: its own metrics first,
/// then each child block (under `path` + its name) in name order.
pub open spec fn flat_ns(ns: NamespaceDefinition, path: Seq<Seq<char>>) -> Seq<
    (Seq<Seq<char>>, MetricDefinition),
>
    decreases ns, 1int, 0int,
{
    ns.metrics@.map_values(|m: MetricDefinition| (path, m)) + flat_kids(
        ns.namespaces@,
        path,
        name_order(ns.namespaces@),
        0,
    )
}

/// The metrics of the child blocks `kids` under `path`, taking the children
/// in the order `order` from position `k` on.
pub open spec fn flat_kids(
    kids: Seq<(String, NamespaceDefinition)>,
    path: Seq<Seq<char>>,
    order: Seq<int>,
    k: int,
) -> Seq<(Seq<Seq<char>>, MetricDefinition)>
    decreases kids, 0int, order.len() - k,
{
    if k < 0 || k >= order.len() {
        Seq::empty()
    } else {
        let j = order[k];
        if 0 <= j < kids.len() {
            flat_ns(kids[j].1, path.push(kids[j].0@)) + flat_kids(kids, path, order, k + 1)
        } else {
            Seq::empty()
        }
    }
}

/// No two entries of a named list share a name.
pub open spec fn distinct_names<T>(v: Seq<(String, T)>) -> bool {
    forall|i: int, j: int| 0 <= i < j < v.len() ==> #[trigger] v[i].0@ != #[trigger] v[j].0@
}

/// Within a namespace block and all blocks below it, sibling blocks have
/// distinct names.
pub open spec fn ns_names_distinct(ns: NamespaceDefinition) -> bool
    decreases ns, 1int, 0int,
{
    distinct_names(ns.namespaces@) && kids_names_distinct(ns.namespaces@, 0)
}

/// The child blocks of `kids` from position `k` on satisfy
/// `ns_names_distinct`.
pub open spec fn kids_names_distinct(kids: Seq<(String, NamespaceDefinition)>, k: int) -> bool
    decreases kids, 0int, kids.len() - k,
{
    if k < 0 || k >= kids.len() {
        true
    } else {
        ns_names_distinct(kids[k].1) && kids_names_distinct(kids, k + 1)
    }
}

/// All metrics of a schema with their namespace paths: top-level metrics
/// first, then the namespace blocks in name order, depth first.
pub open spec fn flat_schema(s: MetricsSchema) -> Seq<(Seq<Seq<char>>, MetricDefinition)> {
    s.metrics@.map_values(|m: MetricDefinition| (Seq::<Seq<char>>::empty(), m)) + flat_kids(
        s.namespaces@,
        Seq::empty(),
        name_order(s.namespaces@),
        0,
    )
}

fn clone_path(path: &Vec<String>) -> (r: Vec<String>)
    ensures
        path_view(r@) == path_view(path@),
{
    let mut r: Vec<String> = Vec::new();
    let n = path.len();
    let mut i: usize = 0;
    while i < n
        invariant
            n == path@.len(),
            i <= n,
            path_view(r@) == path_view(path@.take(i as int)),
        decreases n - i,
    {
        let ghost before = r@;
        let c = path[i].clone();
        assert(c@ == path@[i as int]@);
        r.push(c);
        proof {
            assert(r@ =~= before.push(c));
            assert(path@.take(i as int + 1) =~= path@.take(i as int).push(path@[i as int]));
            assert(path_view(r@) =~= path_view(before).push(c@));
            assert(path_view(path@.take(i as int + 1)) =~= path_view(path@.take(i as int)).push(path@[i as int]@));
        }
        i = i + 1;
    }
    assert(path@.take(n as int) =~= path@);
    r
}

fn push_metrics<'a>(ms: &'a Vec<MetricDefinition>, path: &Vec<String>, result: &mut Vec<FlatMetric<'a>>)
    ensures
        final(result)@.map_values(|f: FlatMetric<'a>| flat_view(f)) == old(result)@.map_values(
            |f: FlatMetric<'a>| flat_view(f),
        ) + ms@.map_values(|m: MetricDefinition| (path_view(path@), m)),
{
    let ghost start = old(result)@.map_values(|f: FlatMetric<'a>| flat_view(f));
    let ghost pv = path_view(path@);
    let n = ms.len();
    let mut i: usize = 0;
    while i < n
        invariant
            n == ms@.len(),
            i <= n,
            pv == path_view(path@),
            result@.map_values(|f: FlatMetric<'a>| flat_view(f)) == start + ms@.take(i as int).map_values(
                |m: MetricDefinition| (pv, m),
            ),
        decreases n - i,
    {
        let ghost before = result@;
        result.push(FlatMetric { namespace: clone_path(path), metric: &ms[i] });
        proof {
            assert(result@ =~= before.push(result@.last()));
            assert(ms@.take(i as int + 1) =~= ms@.take(i as int).push(ms@[i as int]));
            assert(result@.map_values(|f: FlatMetric<'a>| flat_view(f)) =~= before.map_values(
                |f: FlatMetric<'a>| flat_view(f),
            ).push((pv, ms@[i as int])));
        }
        i = i + 1;
    }
    assert(ms@.take(n as int) =~= ms@);
}

fn flatten_kids<'a>(
    kids: &'a Vec<(String, NamespaceDefinition)>,
    path: &Vec<String>,
    result: &mut Vec<FlatMetric<'a>>,
)
    ensures
        final(result)@.map_values(|f: FlatMetric<'a>| flat_view(f)) == old(result)@.map_values(
            |f: FlatMetric<'a>| flat_view(f),
        ) + flat_kids(kids@, path_view(path@), name_order(kids@), 0),
    decreases kids@, 0int, 0int,
{
    let order = sort_names(kids);
    let ghost ov = order@.map_values(|i: usize| i as int);
    let ghost pv = path_view(path@);
    let ghost start = old(result)@.map_values(|f: FlatMetric<'a>| flat_view(f));
    let n = order.len();
    let mut k: usize = 0;
    while k < n
        invariant
            n == order@.len(),
            ov == order@.map_values(|i: usize| i as int),
            ov == name_order(kids@),
            forall|q: int| 0 <= q < order@.len() ==> #[trigger] order@[q] < kids@.len(),
            pv == path_view(path@),
            k <= n,
            result@.map_values(|f: FlatMetric<'a>| flat_view(f)) + flat_kids(kids@, pv, ov, k as int)
                == start + flat_kids(kids@, pv, ov, 0),
        decreases n - k,
    {
        let j = order[k];
        let child = &kids[j];
        let mut child_path = clone_path(path);
        child_path.push(child.0.clone());
        proof {
            assert(path_view(child_path@) =~= pv.push(kids@[j as int].0@));
            assert(ov[k as int] == j as int);
        }
        let ghost before = result@.map_values(|f: FlatMetric<'a>| flat_view(f));
        flatten_namespace(&child.1, &child_path, result);
        proof {
            assert(flat_kids(kids@, pv, ov, k as int) == flat_ns(kids@[j as int].1, pv.push(kids@[j as int].0@))
                + flat_kids(kids@, pv, ov, k + 1));
        }
        k = k + 1;
    }
}

fn flatten_namespace<'a>(
    ns: &'a NamespaceDefinition,
    path: &Vec<String>,
    result: &mut Vec<FlatMetric<'a>>,
)
    ensures
        final(result)@.map_values(|f: FlatMetric<'a>| flat_view(f)) == old(result)@.map_values(
            |f: FlatMetric<'a>| flat_view(f),
        ) + flat_ns(*ns, path_view(path@)),
    decreases *ns, 1int, 0int,
{
    push_metrics(&ns.metrics, path, result);
    flatten_kids(&ns.namespaces, path, result);
}

impl MetricsSchema {
    /// The schema's names are keys, as in the definition file: tag names
    /// are distinct, and so are the names of sibling namespace blocks at
    /// every level.
    pub open spec fn wf(&self) -> bool {
        &&& distinct_names(self.tags@)
        &&& distinct_names(self.namespaces@)
        &&& kids_names_distinct(self.namespaces@, 0)
    }

    /// Every metric with its namespace path, in a fixed order: top-level
    /// metrics first, then namespaces in name order, depth first.
    pub fn flatten_metrics(&self) -> (r: Vec<FlatMetric<'_>>)
        requires
            self.wf(),
        ensures
            r@.map_values(|f: FlatMetric| flat_view(f)) == flat_schema(*self),
    {
        let mut result: Vec<FlatMetric<'_>> = Vec::new();
        let root: Vec<String> = Vec::new();
        assert(path_view(root@) =~= Seq::<Seq<char>>::empty());
        push_metrics(&self.metrics, &root, &mut result);
        flatten_kids(&self.namespaces, &root, &mut result);
        result
    }
}


// ---------------------------------------------------------------------------
// Validation
// ---------------------------------------------------------------------------

/// The error list for the enum tags among the first `n` tag definitions:
/// an enum tag needs a `values` field with at least one value.
pub open spec fn enum_tag_errors(tags: Seq<(String, TagDefinition)>, n: int) -> Seq<Seq<char>>
    decreases n,
{
    if n <= 0 {
        Seq::empty()
    } else {
        let (name, def) = tags[n - 1];
        enum_tag_errors(tags, n - 1) + if def.value_type == TagValueType::Enum {
            match def.values {
                None => seq!["tag '"@ + name@ + "': enum tag must have a 'values' field"@],
                Some(v) => if v@.len() == 0 {
                    seq!["tag '"@ + name@ + "': enum tag must have at least one value"@]
                } else {
                    Seq::empty()
                },
            }
        } else {
            Seq::empty()
        }
    }
}

/// The qualified name of a flattened metric: its namespace path and its
/// name joined with `::`.
pub open spec fn qualified(f: (Seq<Seq<char>>, MetricDefinition)) -> Seq<char> {
    if f.0.len() == 0 {
        f.1.name@
    } else {
        joined(f.0, "::"@) + "::"@ + f.1.name@
    }
}

/// The latest index before `j` whose name equals `qs[i]`, or -1.
pub open spec fn last_same(qs: Seq<Seq<char>>, i: int, j: int) -> int
    decreases j,
{
    if j <= 0 {
        -1
    } else if qs[j - 1] == qs[i] {
        j - 1
    } else {
        last_same(qs, i, j - 1)
    }
}

/// One error for each of the first `n` names that repeats an earlier name,
/// giving the latest earlier index and its own.
pub open spec fn duplicate_errors(qs: Seq<Seq<char>>, n: int) -> Seq<Seq<char>>
    decreases n,
{
    if n <= 0 {
        Seq::empty()
    } else {
        let i = n - 1;
        let prev = last_same(qs, i, i);
        duplicate_errors(qs, n - 1) + if prev >= 0 {
            seq![
                "duplicate metric '"@ + qs[i] + "' (indices "@ + decimal(prev as nat) + " and "@
                    + decimal(i as nat) + ")"@,
            ]
        } else {
            Seq::empty()
        }
    }
}

/// One error for each of the first `n` tag references of a metric that
/// names no defined tag.
pub open spec fn ref_errors(
    q: Seq<char>,
    refs: Seq<MetricTagRef>,
    tag_names: Seq<Seq<char>>,
    n: int,
) -> Seq<Seq<char>>
    decreases n,
{
    if n <= 0 {
        Seq::empty()
    } else {
        let t = refs[n - 1].tag@;
        ref_errors(q, refs, tag_names, n - 1) + if tag_names.contains(t) {
            Seq::empty()
        } else {
            seq!["metric '"@ + q + "': references undefined tag '"@ + t + "'"@]
        }
    }
}

/// The undefined-tag errors of the first `n` flattened metrics.
pub open spec fn undefined_errors(
    flat: Seq<(Seq<Seq<char>>, MetricDefinition)>,
    tag_names: Seq<Seq<char>>,
    n: int,
) -> Seq<Seq<char>>
    decreases n,
{
    if n <= 0 {
        Seq::empty()
    } else {
        let f = flat[n - 1];
        undefined_errors(flat, tag_names, n - 1) + ref_errors(
            qualified(f),
            f.1.tags@,
            tag_names,
            f.1.tags@.len() as int,
        )
    }
}

/// Every problem of a schema, in order: enum tags without values, repeated
/// qualified metric names, references to undefined tags.
pub open spec fn schema_errors(s: MetricsSchema) -> Seq<Seq<char>> {
    let flat = flat_schema(s);
    let qs = flat.map_values(|f: (Seq<Seq<char>>, MetricDefinition)| qualified(f));
    enum_tag_errors(s.tags@, s.tags@.len() as int) + duplicate_errors(qs, qs.len() as int)
        + undefined_errors(flat, names_of(s.tags@), flat.len() as int)
}

/// An enum tag without values, or with an empty list of them.
pub open spec fn bad_enum_tag(def: TagDefinition) -> bool {
    def.value_type == TagValueType::Enum && match def.values {
        None => true,
        Some(v) => v@.len() == 0,
    }
}

proof fn lemma_enum_errors_empty(tags: Seq<(String, TagDefinition)>, n: int)
    requires
        0 <= n <= tags.len(),
    ensures
        enum_tag_errors(tags, n).len() == 0 <==> forall|i: int| 0 <= i < n ==> !bad_enum_tag(#[trigger] tags[i].1),
    decreases n,
{
    if n > 0 {
        lemma_enum_errors_empty(tags, n - 1);
    }
}

proof fn lemma_last_same(qs: Seq<Seq<char>>, i: int, j: int)
    requires
        0 <= j <= i < qs.len(),
    ensures
        last_same(qs, i, j) < j,
        last_same(qs, i, j) >= 0 <==> exists|k: int| 0 <= k < j && #[trigger] qs[k] == qs[i],
    decreases j,
{
    if j > 0 {
        lemma_last_same(qs, i, j - 1);
        if qs[j - 1] != qs[i] && last_same(qs, i, j - 1) < 0 {
            assert forall|k: int| 0 <= k < j implies #[trigger] qs[k] != qs[i] by {
                if k < j - 1 {
                    if qs[k] == qs[i] {
                        assert(exists|k2: int| 0 <= k2 < j - 1 && #[trigger] qs[k2] == qs[i]);
                    }
                }
            }
        }
    }
}

proof fn lemma_dup_errors_empty(qs: Seq<Seq<char>>, n: int)
    requires
        0 <= n <= qs.len(),
    ensures
        duplicate_errors(qs, n).len() == 0 <==> forall|a: int, b: int| 0 <= a < b < n ==> #[trigger] qs[a] != #[trigger] qs[b],
    decreases n,
{
    if n > 0 {
        lemma_dup_errors_empty(qs, n - 1);
        lemma_last_same(qs, n - 1, n - 1);
        if last_same(qs, n - 1, n - 1) >= 0 {
            let k = choose|k: int| 0 <= k < n - 1 && #[trigger] qs[k] == qs[n - 1];
            assert(qs[k] == qs[n - 1]);
        } else {
            assert forall|a: int, b: int| 0 <= a < b < n && duplicate_errors(qs, n - 1).len() == 0 implies #[trigger] qs[a] != #[trigger] qs[b] by {
                if b == n - 1 && qs[a] == qs[b] {
                    assert(exists|k: int| 0 <= k < n - 1 && #[trigger] qs[k] == qs[n - 1]);
                }
            }
        }
    }
}

proof fn lemma_ref_errors_empty(q: Seq<char>, refs: Seq<MetricTagRef>, names: Seq<Seq<char>>, n: int)
    requires
        0 <= n <= refs.len(),
    ensures
        ref_errors(q, refs, names, n).len() == 0 <==> forall|i: int| 0 <= i < n ==> names.contains(#[trigger] refs[i].tag@),
    decreases n,
{
    if n > 0 {
        lemma_ref_errors_empty(q, refs, names, n - 1);
    }
}

/// Every tag a flattened metric refers to is one of `names`.
pub open spec fn refs_defined(flat: Seq<(Seq<Seq<char>>, MetricDefinition)>, names: Seq<Seq<char>>) -> bool {
    forall|i: int, k: int|
        0 <= i < flat.len() && 0 <= k < flat[i].1.tags@.len() ==> names.contains(
            #[trigger] flat[i].1.tags@[k].tag@,
        )
}

proof fn lemma_undef_errors_empty(flat: Seq<(Seq<Seq<char>>, MetricDefinition)>, names: Seq<Seq<char>>, n: int)
    requires
        0 <= n <= flat.len(),
    ensures
        undefined_errors(flat, names, n).len() == 0 <==> refs_defined(flat.take(n), names),
    decreases n,
{
    if n > 0 {
        lemma_undef_errors_empty(flat, names, n - 1);
        let f = flat[n - 1];
        lemma_ref_errors_empty(qualified(f), f.1.tags@, names, f.1.tags@.len() as int);
        let a = flat.take(n);
        let b = flat.take(n - 1);
        assert forall|i: int| 0 <= i < n - 1 implies #[trigger] a[i] == b[i] by {}
        assert(a[n - 1] == f);
        if refs_defined(a, names) {
            assert forall|i: int, k: int| 0 <= i < b.len() && 0 <= k < b[i].1.tags@.len() implies names.contains(
                #[trigger] b[i].1.tags@[k].tag@,
            ) by {
                assert(a[i] == b[i]);
            }
            assert forall|k: int| 0 <= k < f.1.tags@.len() implies names.contains(#[trigger] f.1.tags@[k].tag@) by {
                assert(a[n - 1].1.tags@[k] == f.1.tags@[k]);
            }
        }
        if refs_defined(b, names) && (forall|k: int| 0 <= k < f.1.tags@.len() ==> names.contains(#[trigger] f.1.tags@[k].tag@)) {
            assert forall|i: int, k: int| 0 <= i < a.len() && 0 <= k < a[i].1.tags@.len() implies names.contains(
                #[trigger] a[i].1.tags@[k].tag@,
            ) by {
                if i < n - 1 {
                    assert(a[i] == b[i]);
                    assert(b[i].1.tags@[k] == a[i].1.tags@[k]);
                }
            }
        }
    }
}

/// A schema validates exactly when every enum tag has at least one value,
/// no two flattened metrics share a qualified name, and every tag a metric
/// refers to is defined; otherwise every problem is reported.
pub proof fn lemma_validate_ok_iff(s: MetricsSchema)
    ensures
        schema_errors(s).len() == 0 <==> {
            let flat = flat_schema(s);
            let qs = flat.map_values(|f: (Seq<Seq<char>>, MetricDefinition)| qualified(f));
            &&& forall|i: int| 0 <= i < s.tags@.len() ==> !bad_enum_tag(#[trigger] s.tags@[i].1)
            &&& forall|a: int, b: int| 0 <= a < b < qs.len() ==> #[trigger] qs[a] != #[trigger] qs[b]
            &&& refs_defined(flat, names_of(s.tags@))
        },
{
    let flat = flat_schema(s);
    let qs = flat.map_values(|f: (Seq<Seq<char>>, MetricDefinition)| qualified(f));
    lemma_enum_errors_empty(s.tags@, s.tags@.len() as int);
    lemma_dup_errors_empty(qs, qs.len() as int);
    lemma_undef_errors_empty(flat, names_of(s.tags@), flat.len() as int);
    assert(flat.take(flat.len() as int) =~= flat);
}

/// A text without any ':' in it.
pub open spec fn colon_free(x: Seq<char>) -> bool {
    forall|i: int| 0 <= i < x.len() ==> #[trigger] x[i] != ':'
}

/// Texts none of which holds a ':'.
pub open spec fn parts_colon_free(a: Seq<Seq<char>>) -> bool {
    forall|i: int| 0 <= i < a.len() ==> colon_free(#[trigger] a[i])
}

/// Joining colon-free parts with `::` loses nothing: the parts can be read
/// back from the text.
proof fn lemma_joined_injective(a: Seq<Seq<char>>, b: Seq<Seq<char>>)
    requires
        a.len() > 0,
        b.len() > 0,
        parts_colon_free(a),
        parts_colon_free(b),
        joined(a, "::"@) == joined(b, "::"@),
    ensures
        a == b,
    decreases a.len(),
{
    reveal_strlit("::");
    let s = joined(a, "::"@);
    if a.len() == 1 && b.len() == 1 {
        assert(a =~= b);
    } else if a.len() == 1 {
        let y = joined(b.drop_last(), "::"@);
        assert(s == y + "::"@ + b.last());
        assert(s[y.len() as int] == ':');
        assert(colon_free(a[0]));
    } else if b.len() == 1 {
        let x = joined(a.drop_last(), "::"@);
        assert(s == x + "::"@ + a.last());
        assert(s[x.len() as int] == ':');
        assert(colon_free(b[0]));
    } else {
        let x = joined(a.drop_last(), "::"@);
        let y = joined(b.drop_last(), "::"@);
        let la = a.last();
        let lb = b.last();
        assert(s == x + "::"@ + la);
        assert(s == y + "::"@ + lb);
        assert(colon_free(a[a.len() - 1]));
        assert(colon_free(b[b.len() - 1]));
        if la.len() < lb.len() {
            let i = (x.len() + 1) as int;
            assert(s[i] == ':');
            assert(s[i] == lb[i - y.len() - 2]);
        } else if lb.len() < la.len() {
            let i = (y.len() + 1) as int;
            assert(s[i] == ':');
            assert(s[i] == la[i - x.len() - 2]);
        } else {
            assert(x.len() == y.len());
            assert(la =~= lb) by {
                assert forall|i: int| 0 <= i < la.len() implies la[i] == lb[i] by {
                    assert(s[x.len() + 2 + i] == la[i]);
                    assert(s[y.len() + 2 + i] == lb[i]);
                }
            }
            assert(x =~= y) by {
                assert forall|i: int| 0 <= i < x.len() implies x[i] == y[i] by {
                    assert(s[i] == x[i]);
                    assert(s[i] == y[i]);
                }
            }
            assert(parts_colon_free(a.drop_last())) by {
                assert forall|i: int| 0 <= i < a.drop_last().len() implies colon_free(
                    #[trigger] a.drop_last()[i],
                ) by {
                    assert(a.drop_last()[i] == a[i]);
                }
            }
            assert(parts_colon_free(b.drop_last())) by {
                assert forall|i: int| 0 <= i < b.drop_last().len() implies colon_free(
                    #[trigger] b.drop_last()[i],
                ) by {
                    assert(b.drop_last()[i] == b[i]);
                }
            }
            lemma_joined_injective(a.drop_last(), b.drop_last());
            assert(a =~= a.drop_last().push(la));
            assert(b =~= b.drop_last().push(lb));
        }
    }
}

/// A qualified name is the namespace path and the name joined with `::`.
proof fn lemma_qualified_joined(f: (Seq<Seq<char>>, MetricDefinition))
    ensures
        qualified(f) == joined(f.0.push(f.1.name@), "::"@),
{
    let p = f.0.push(f.1.name@);
    assert(p.drop_last() =~= f.0);
    if f.0.len() == 0 {
        assert(p.len() == 1);
    }
}

/// Where no namespace name or metric name holds a ':', two flattened
/// metrics share a qualified name exactly when they share their namespace
/// path and their name. So such a schema validates exactly when every enum
/// tag has at least one value, no two flattened metrics have the same
/// namespace path and name, and every tag a metric refers to is defined.
pub proof fn lemma_validate_ok_iff_paths(s: MetricsSchema)
    requires
        forall|i: int|
            0 <= i < flat_schema(s).len() ==> parts_colon_free((#[trigger] flat_schema(s)[i]).0)
                && colon_free(flat_schema(s)[i].1.name@),
    ensures
        schema_errors(s).len() == 0 <==> {
            let flat = flat_schema(s);
            &&& forall|i: int| 0 <= i < s.tags@.len() ==> !bad_enum_tag(#[trigger] s.tags@[i].1)
            &&& forall|a: int, b: int|
                0 <= a < b < flat.len() ==> (#[trigger] flat[a]).0 != (#[trigger] flat[b]).0
                    || flat[a].1.name@ != flat[b].1.name@
            &&& refs_defined(flat, names_of(s.tags@))
        },
{
    let flat = flat_schema(s);
    let qs = flat.map_values(|f: (Seq<Seq<char>>, MetricDefinition)| qualified(f));
    lemma_validate_ok_iff(s);
    assert forall|a: int, b: int| 0 <= a < b < flat.len() implies (#[trigger] qs[a] == #[trigger] qs[b])
        <==> (flat[a].0 == flat[b].0 && flat[a].1.name@ == flat[b].1.name@) by {
        let fa = flat[a];
        let fb = flat[b];
        lemma_qualified_joined(fa);
        lemma_qualified_joined(fb);
        if qs[a] == qs[b] {
            let pa = fa.0.push(fa.1.name@);
            let pb = fb.0.push(fb.1.name@);
            assert(parts_colon_free(pa)) by {
                assert forall|i: int| 0 <= i < pa.len() implies colon_free(#[trigger] pa[i]) by {
                    if i < fa.0.len() {
                        assert(colon_free(fa.0[i]));
                    }
                }
            }
            assert(parts_colon_free(pb)) by {
                assert forall|i: int| 0 <= i < pb.len() implies colon_free(#[trigger] pb[i]) by {
                    if i < fb.0.len() {
                        assert(colon_free(fb.0[i]));
                    }
                }
            }
            lemma_joined_injective(pa, pb);
            assert(pa.drop_last() =~= fa.0);
            assert(pb.drop_last() =~= fb.0);
            assert(pa.last() == pb.last());
        }
    }
    let qdist = forall|a: int, b: int| 0 <= a < b < qs.len() ==> #[trigger] qs[a] != #[trigger] qs[b];
    let pdist = forall|a: int, b: int|
        0 <= a < b < flat.len() ==> (#[trigger] flat[a]).0 != (#[trigger] flat[b]).0
            || flat[a].1.name@ != flat[b].1.name@;
    if qdist {
        assert forall|a: int, b: int| 0 <= a < b < flat.len() implies (#[trigger] flat[a]).0 != (
        #[trigger] flat[b]).0 || flat[a].1.name@ != flat[b].1.name@ by {
            assert(qs[a] != qs[b]);
        }
    }
    if pdist {
        assert forall|a: int, b: int| 0 <= a < b < qs.len() implies #[trigger] qs[a] != #[trigger] qs[b] by {
            assert(flat[a].0 != flat[b].0 || flat[a].1.name@ != flat[b].1.name@);
        }
    }
}

/// How many of the first `n` tag definitions are enum tags without values.
pub open spec fn bad_enum_count(tags: Seq<(String, TagDefinition)>, n: int) -> nat
    decreases n,
{
    if n <= 0 {
        0
    } else {
        bad_enum_count(tags, n - 1) + if bad_enum_tag(tags[n - 1].1) { 1nat } else { 0nat }
    }
}

/// How many of the first `n` names repeat an earlier name.
pub open spec fn repeat_count(qs: Seq<Seq<char>>, n: int) -> nat
    decreases n,
{
    if n <= 0 {
        0
    } else {
        repeat_count(qs, n - 1) + if exists|k: int| 0 <= k < n - 1 && #[trigger] qs[k] == qs[n - 1] {
            1nat
        } else {
            0nat
        }
    }
}

/// How many of the first `n` tag references name no tag of `names`.
pub open spec fn missing_ref_count(refs: Seq<MetricTagRef>, names: Seq<Seq<char>>, n: int) -> nat
    decreases n,
{
    if n <= 0 {
        0
    } else {
        missing_ref_count(refs, names, n - 1) + if names.contains(refs[n - 1].tag@) {
            0nat
        } else {
            1nat
        }
    }
}

/// How many tag references of the first `n` flattened metrics name no tag
/// of `names`.
pub open spec fn undefined_ref_count(
    flat: Seq<(Seq<Seq<char>>, MetricDefinition)>,
    names: Seq<Seq<char>>,
    n: int,
) -> nat
    decreases n,
{
    if n <= 0 {
        0
    } else {
        undefined_ref_count(flat, names, n - 1) + missing_ref_count(
            flat[n - 1].1.tags@,
            names,
            flat[n - 1].1.tags@.len() as int,
        )
    }
}

proof fn lemma_enum_errors_count(tags: Seq<(String, TagDefinition)>, n: int)
    ensures
        enum_tag_errors(tags, n).len() == bad_enum_count(tags, n),
    decreases n,
{
    if n > 0 {
        lemma_enum_errors_count(tags, n - 1);
    }
}

proof fn lemma_dup_errors_count(qs: Seq<Seq<char>>, n: int)
    requires
        n <= qs.len(),
    ensures
        duplicate_errors(qs, n).len() == repeat_count(qs, n),
    decreases n,
{
    if n > 0 {
        lemma_dup_errors_count(qs, n - 1);
        lemma_last_same(qs, n - 1, n - 1);
    }
}

proof fn lemma_ref_errors_count(q: Seq<char>, refs: Seq<MetricTagRef>, names: Seq<Seq<char>>, n: int)
    ensures
        ref_errors(q, refs, names, n).len() == missing_ref_count(refs, names, n),
    decreases n,
{
    if n > 0 {
        lemma_ref_errors_count(q, refs, names, n - 1);
    }
}

proof fn lemma_undef_errors_count(
    flat: Seq<(Seq<Seq<char>>, MetricDefinition)>,
    names: Seq<Seq<char>>,
    n: int,
)
    ensures
        undefined_errors(flat, names, n).len() == undefined_ref_count(flat, names, n),
    decreases n,
{
    if n > 0 {
        lemma_undef_errors_count(flat, names, n - 1);
        let f = flat[n - 1];
        lemma_ref_errors_count(qualified(f), f.1.tags@, names, f.1.tags@.len() as int);
    }
}

/// A refused schema reports one problem for each enum tag without values,
/// one for each flattened metric whose qualified name repeats an earlier
/// one, and one for each reference to an undefined tag.
pub proof fn lemma_validate_error_count(s: MetricsSchema)
    ensures
        schema_errors(s).len() == {
            let flat = flat_schema(s);
            let qs = flat.map_values(|f: (Seq<Seq<char>>, MetricDefinition)| qualified(f));
            bad_enum_count(s.tags@, s.tags@.len() as int) + repeat_count(qs, qs.len() as int)
                + undefined_ref_count(flat, names_of(s.tags@), flat.len() as int)
        },
{
    let flat = flat_schema(s);
    let qs = flat.map_values(|f: (Seq<Seq<char>>, MetricDefinition)| qualified(f));
    lemma_enum_errors_count(s.tags@, s.tags@.len() as int);
    lemma_dup_errors_count(qs, qs.len() as int);
    lemma_undef_errors_count(flat, names_of(s.tags@), flat.len() as int);
}

fn push_error(errors: &mut Vec<String>, e: String)
    ensures
        string_views(final(errors)@) == string_views(old(errors)@).push(e@),
{
    errors.push(e);
    assert(string_views(errors@) =~= string_views(old(errors)@).push(e@));
}

fn qualified_name(f: &FlatMetric) -> (r: String)
    ensures
        r@ == qualified(flat_view(*f)),
{
    let mut s = String::new();
    if f.namespace.len() == 0 {
        s.append(f.metric.name.as_str());
    } else {
        push_joined_strings(&mut s, &f.namespace, "::");
        s.append("::");
        s.append(f.metric.name.as_str());
    }
    assert(s@ =~= qualified(flat_view(*f)));
    s
}

fn has_tag(tags: &Vec<(String, TagDefinition)>, name: &String) -> (b: bool)
    ensures
        b == names_of(tags@).contains(name@),
{
    let n = tags.len();
    let mut i: usize = 0;
    while i < n
        invariant
            n == tags@.len(),
            i <= n,
            forall|j: int| 0 <= j < i ==> names_of(tags@)[j] != name@,
        decreases n - i,
    {
        if tags[i].0 == *name {
            assert(names_of(tags@)[i as int] == name@);
            return true;
        }
        i = i + 1;
    }
    false
}

fn push_decimal_usize(s: &mut String, n: usize)
    ensures
        final(s)@ == old(s)@ + decimal(n as nat),
{
    push_decimal(s, n as u64);
}

fn check_enum_tags(tags: &Vec<(String, TagDefinition)>, errors: &mut Vec<String>)
    ensures
        string_views(final(errors)@) == string_views(old(errors)@) + enum_tag_errors(
            tags@,
            tags@.len() as int,
        ),
{
    let ghost start = string_views(errors@);
    let n = tags.len();
    let mut i: usize = 0;
    while i < n
        invariant
            n == tags@.len(),
            i <= n,
            string_views(errors@) == start + enum_tag_errors(tags@, i as int),
        decreases n - i,
    {
        let (name, def) = &tags[i];
        if def.value_type == TagValueType::Enum {
            match &def.values {
                None => {
                    let mut e = String::new();
                    e.append("tag '");
                    e.append(name.as_str());
                    e.append("': enum tag must have a 'values' field");
                    push_error(errors, e);
                },
                Some(v) => {
                    if v.len() == 0 {
                        let mut e = String::new();
                        e.append("tag '");
                        e.append(name.as_str());
                        e.append("': enum tag must have at least one value");
                        push_error(errors, e);
                    }
                },
            }
        }
        proof {
            assert(string_views(errors@) =~= start + enum_tag_errors(tags@, i as int + 1));
        }
        i = i + 1;
    }
}

fn check_duplicates(qs: &Vec<String>, errors: &mut Vec<String>)
    ensures
        string_views(final(errors)@) == string_views(old(errors)@) + duplicate_errors(
            string_views(qs@),
            qs@.len() as int,
        ),
{
    let ghost start = string_views(errors@);
    let ghost qv = string_views(qs@);
    let n = qs.len();
    let mut i: usize = 0;
    while i < n
        invariant
            n == qs@.len(),
            qv == string_views(qs@),
            i <= n,
            string_views(errors@) == start + duplicate_errors(qv, i as int),
        decreases n - i,
    {
        let mut j: usize = i;
        let mut found: bool = false;
        while j > 0 && !found
            invariant
                n == qs@.len(),
                qv == string_views(qs@),
                i < n,
                j <= i,
                !found ==> last_same(qv, i as int, i as int) == last_same(qv, i as int, j as int),
                found ==> j < i && last_same(qv, i as int, i as int) == j,
            decreases j + if found { 0int } else { 1int },
        {
            if qs[j - 1] == qs[i] {
                found = true;
                j = j - 1;
            } else {
                j = j - 1;
            }
        }
        if found {
            let mut e = String::new();
            e.append("duplicate metric '");
            e.append(qs[i].as_str());
            e.append("' (indices ");
            push_decimal_usize(&mut e, j);
            e.append(" and ");
            push_decimal_usize(&mut e, i);
            e.append(")");
            push_error(errors, e);
        }
        proof {
            assert(string_views(errors@) =~= start + duplicate_errors(qv, i as int + 1));
        }
        i = i + 1;
    }
}

fn check_refs(
    q: &String,
    refs: &Vec<MetricTagRef>,
    tags: &Vec<(String, TagDefinition)>,
    errors: &mut Vec<String>,
)
    ensures
        string_views(final(errors)@) == string_views(old(errors)@) + ref_errors(
            q@,
            refs@,
            names_of(tags@),
            refs@.len() as int,
        ),
{
    let ghost start = string_views(errors@);
    let n = refs.len();
    let mut i: usize = 0;
    while i < n
        invariant
            n == refs@.len(),
            i <= n,
            string_views(errors@) == start + ref_errors(q@, refs@, names_of(tags@), i as int),
        decreases n - i,
    {
        let t = &refs[i].tag;
        if !has_tag(tags, t) {
            let mut e = String::new();
            e.append("metric '");
            e.append(q.as_str());
            e.append("': references undefined tag '");
            e.append(t.as_str());
            e.append("'");
            push_error(errors, e);
        }
        proof {
            assert(string_views(errors@) =~= start + ref_errors(q@, refs@, names_of(tags@), i as int + 1));
        }
        i = i + 1;
    }
}

impl MetricsSchema {
    /// Check the schema for internal consistency: `Ok(())` when it has no
    /// problem, else every problem found, in order.
    pub fn validate(&self) -> (r: Result<(), ValidationError>)
        requires
            self.wf(),
        ensures
            match r {
                Ok(()) => schema_errors(*self).len() == 0,
                Err(e) => schema_errors(*self).len() > 0 && string_views(e.errors@) == schema_errors(
                    *self,
                ),
            },
    {
        let mut errors: Vec<String> = Vec::new();
        assert(string_views(errors@) =~= Seq::<Seq<char>>::empty());
        check_enum_tags(&self.tags, &mut errors);
        let flat = self.flatten_metrics();
        let ghost fv = flat@.map_values(|f: FlatMetric| flat_view(f));
        let n = flat.len();
        let mut qs: Vec<String> = Vec::new();
        let mut i: usize = 0;
        while i < n
            invariant
                n == flat@.len(),
                fv == flat@.map_values(|f: FlatMetric| flat_view(f)),
                i <= n,
                string_views(qs@) == fv.take(i as int).map_values(
                    |f: (Seq<Seq<char>>, MetricDefinition)| qualified(f),
                ),
            decreases n - i,
        {
            let q = qualified_name(&flat[i]);
            assert(fv[i as int] == flat_view(flat@[i as int]));
            assert(q@ == qualified(fv[i as int]));
            let ghost before = qs@;
            qs.push(q);
            proof {
                assert(qs@ =~= before.push(q));
                assert(fv.take(i as int + 1) =~= fv.take(i as int).push(fv[i as int]));
                assert(string_views(qs@) =~= string_views(before).push(q@));
                assert(string_views(qs@) =~= fv.take(i as int + 1).map_values(
                    |f: (Seq<Seq<char>>, MetricDefinition)| qualified(f),
                ));
            }
            i = i + 1;
        }
        assert(fv.take(n as int) =~= fv);
        check_duplicates(&qs, &mut errors);
        let ghost after_dups = string_views(errors@);
        let mut k: usize = 0;
        while k < n
            invariant
                n == flat@.len(),
                n == qs@.len(),
                fv == flat@.map_values(|f: FlatMetric| flat_view(f)),
                string_views(qs@) == fv.map_values(|f: (Seq<Seq<char>>, MetricDefinition)| qualified(f)),
                k <= n,
                string_views(errors@) == after_dups + undefined_errors(fv, names_of(self.tags@), k as int),
            decreases n - k,
        {
            let f = &flat[k];
            proof {
                assert(string_views(qs@)[k as int] == qs@[k as int]@);
                assert(qs@[k as int]@ == qualified(fv[k as int]));
                assert(fv[k as int].1 == *f.metric);
            }
            check_refs(&qs[k], &f.metric.tags, &self.tags, &mut errors);
            proof {
                assert(string_views(errors@) =~= after_dups + undefined_errors(fv, names_of(self.tags@), k as int + 1));
            }
            k = k + 1;
        }
        if errors.len() == 0 {
            Ok(())
        } else {
            Err(ValidationError { errors })
        }
    }
}

impl ValidationError {
    /// Each error on a line of its own, as `- <error>`.
    pub fn to_string(&self) -> (s: String)
        ensures
            s@ == joined(self.errors@.map_values(|e: String| "- "@ + e@), "\n"@),
    {
        let ghost parts = self.errors@.map_values(|e: String| "- "@ + e@);
        let mut s = String::new();
        let n = self.errors.len();
        let mut i: usize = 0;
        assert(parts.take(0) =~= Seq::<Seq<char>>::empty());
        while i < n
            invariant
                n == self.errors@.len(),
                parts == self.errors@.map_values(|e: String| "- "@ + e@),
                parts.len() == n,
                i <= n,
                s@ == joined(parts.take(i as int), "\n"@),
            decreases n - i,
        {
            if i > 0 {
                s.append("\n");
            }
            s.append("- ");
            s.append(self.errors[i].as_str());
            proof {
                let t = parts.take(i as int + 1);
                assert(t.drop_last() =~= parts.take(i as int));
                assert(t.last() == "- "@ + self.errors@[i as int]@);
                if i == 0 {
                    assert(joined(parts.take(0), "\n"@) =~= Seq::<char>::empty());
                }
                assert(s@ =~= joined(t, "\n"@));
            }
            i = i + 1;
        }
        assert(parts.take(n as int) =~= parts);
        s
    }
}

} // verus!
