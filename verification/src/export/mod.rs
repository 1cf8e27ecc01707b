use std::sync::Arc;

use vstd::prelude::*;

pub use crate::aggregator::sketch::UDDSketch;
pub use crate::aggregator::striped_map::TagsData;

pub mod prometheus;
pub mod statsd;

verus! {

/// A flushed metric value ready for export. A gauge value is the bit pattern
/// of an IEEE-754 double.
pub enum FlushedValue {
    Count(i64),
    Gauge(u64),
    Histogram(UDDSketch),
}

/// A single flushed metric with its identity, tags and aggregated value.
pub struct FlushedMetric {
    /// Namespace path segments (e.g. `["http", "auth"]`); empty for top-level
    /// metrics.
    pub namespace: &'static [&'static str],
    pub metric_name: &'static str,
    pub tags: Arc<TagsData>,
    pub value: FlushedValue,
}

/// A single raw histogram value recorded without sketch aggregation. The
/// value is the bit pattern of an IEEE-754 double.
pub struct RawDistributionPoint {
    pub namespace: &'static [&'static str],
    pub metric_name: &'static str,
    pub tags: Arc<TagsData>,
    pub value_bits: u64,
}

/// Error returned by exporters: a message, and the description of the
/// error that caused it, if any.
pub struct ExportError {
    pub message: String,
    pub source: Option<String>,
}

impl ExportError {
    /// An error with a message and no cause.
    pub fn new(message: String) -> (e: Self)
        ensures
            e.message@ == message@,
            e.source is None,
    {
        ExportError { message, source: None }
    }

    /// An error with a message, caused by an error described by `source`.
    pub fn with_source(message: String, source: String) -> (e: Self)
        ensures
            e.message@ == message@,
            e.source == Some(source),
    {
        ExportError { message, source: Some(source) }
    }

    /// The message, followed by `": "` and the cause when there is one.
    pub fn to_string(&self) -> (s: String)
        ensures
            s@ == match self.source {
                Some(src) => self.message@ + ": "@ + src@,
                None => self.message@,
            },
    {
        let mut s = self.message.clone();
        match &self.source {
            Some(src) => {
                s.append(": ");
                s.append(src.as_str());
            },
            None => {},
        }
        s
    }
}

} // verus!
