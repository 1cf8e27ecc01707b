# chalk-metrics

Metrics aggregation with typed metric definitions and pluggable exporters,
written as a Verus library: the aggregation and formatting logic carries
`requires`/`ensures` contracts that Verus proves.

## Layout

- `src/aggregator/` — counters (`count`), gauges (`gauge`), the integer core
  of the quantile sketch (`sketch`: ordered bucket table, compaction, merge,
  rank and CDF lookups) and the striped aggregation map (`striped_map`) that
  keeps one aggregate per metric and tag combination.
- `src/export/` — flushed metrics and export errors; the Prometheus text
  exposition (`prometheus`) and the DogStatsD lines and datagram batching
  (`statsd`). Floating-point values reach these as text.
- `src/schema.rs` — the metrics schema: flattening the namespace tree and
  validating tags, duplicates and tag references.
- `src/definitions.rs` — the definition language of tags, namespaces and
  metrics: its grammar over macro tokens, and what each metric definition
  expands to (fields, export keys, namespace, documentation).
- `src/generated.rs` — the tags, namespaces and metrics of the built-in
  metric set; `src/naming.rs` — the snake-case rule for field names.
- `src/client.rs` — the install-once / shut-down-once lifecycle of the
  process-wide client.
- `src/worker.rs` — the flush worker's decisions: what a timer tick or the
  shutdown signal leads to, and which exporters a flush is handed to.
- `src/text.rs` — decimal and joined text used by the formatters.
- `app/` — ordinary Rust around the library: the floating-point side of the
  sketch, the global client, the tokio loop that carries out the flush
  worker's decisions, the exporters' sockets, JSON schema parsing, and the
  recording methods of the metrics.
- `tests/` — tests of the library.

Gauge values and the floating-point state of sketches are held as IEEE-754
bit patterns, so the verified code never does floating-point arithmetic.
