//! Metrics aggregation: count and gauge slots, the counting core of an
//! approximate quantile sketch, a striped aggregation map, the Prometheus
//! and StatsD text formats, metric schema checks, and the definition
//! language of tags, namespaces and metrics.

pub mod aggregator;
pub mod client;
pub mod definitions;
pub mod export;
pub mod text;
pub mod schema;
pub mod generated;
pub mod naming;
pub mod worker;
