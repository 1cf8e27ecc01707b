//! The tags, namespaces and metrics of the built-in metric set, as the
//! definition macros lay them out: one type per tag, one marker type per
//! namespace, one struct per metric carrying its tag values.

use vstd::prelude::*;

use crate::export::prometheus::pair_views;
use crate::text::str_views;

verus! {

// ---------------------------------------------------------------------------
// Tags
// ---------------------------------------------------------------------------

/// Outcome of a request: an enum tag exported under `status`.
#[derive(Debug, Clone, Copy, PartialEq, Eq, Structural, Hash)]
pub enum Status {
    Success,
    Failure,
    Timeout,
}

/// The exported text of a status value.
pub open spec fn status_text(s: Status) -> Seq<char> {
    match s {
        Status::Success => "success"@,
        Status::Failure => "failure"@,
        Status::Timeout => "timeout"@,
    }
}

impl Status {
    /// The key under which this tag is exported.
    pub const EXPORT_NAME: &'static str = "status";

    /// The exported text of the value.
    pub fn as_str(&self) -> (r: &'static str)
        ensures
            r@ == status_text(*self),
    {
        match self {
            Status::Success => "success",
            Status::Failure => "failure",
            Status::Timeout => "timeout",
        }
    }

    /// The exported text of the value, owned.
    pub fn to_string(&self) -> (r: String)
        ensures
            r@ == status_text(*self),
    {
        String::from_str(self.as_str())
    }

    /// The value as it goes into a metric's tag pairs.
    pub fn export_value(&self) -> (r: String)
        ensures
            r@ == status_text(*self),
    {
        self.to_string()
    }
}

/// A free-form endpoint tag, exported under `endpoint`.
#[derive(Debug, Clone, PartialEq, Eq, Hash)]
pub struct Endpoint(pub String);

/// A free-form region tag, exported under `region`.
#[derive(Debug, Clone, PartialEq, Eq, Hash)]
pub struct Region(pub String);

impl Endpoint {
    /// The key under which this tag is exported.
    pub const EXPORT_NAME: &'static str = "endpoint";

    /// A tag value holding `s`.
    pub fn from_text(s: &str) -> (r: Self)
        ensures
            r.0@ == s@,
    {
        Endpoint(String::from_str(s))
    }

    /// The tag's text.
    pub fn as_str(&self) -> (r: &str)
        ensures
            r@ == self.0@,
    {
        self.0.as_str()
    }

    /// The tag's text, owned.
    pub fn to_string(&self) -> (r: String)
        ensures
            r@ == self.0@,
    {
        String::from_str(self.0.as_str())
    }

    /// The value as it goes into a metric's tag pairs.
    pub fn export_value(&self) -> (r: String)
        ensures
            r@ == self.0@,
    {
        self.to_string()
    }
}

impl From<String> for Endpoint {
    fn from(s: String) -> (r: Self)
        ensures
            r.0 == s,
    {
        Endpoint(s)
    }
}

impl vstd::std_specs::convert::FromSpecImpl<String> for Endpoint {
    open spec fn obeys_from_spec() -> bool {
        true
    }

    open spec fn from_spec(s: String) -> Self {
        Endpoint(s)
    }
}

impl From<&str> for Endpoint {
    fn from(s: &str) -> (r: Self)
        ensures
            r.0@ == s@,
    {
        Endpoint::from_text(s)
    }
}

impl vstd::std_specs::convert::FromSpecImpl<&str> for Endpoint {
    /// An owned copy of a string has the same text but is not the same
    /// value in specifications, so this conversion states the text it
    /// keeps in the `ensures` of `from` instead.
    open spec fn obeys_from_spec() -> bool {
        false
    }

    open spec fn from_spec(s: &str) -> Self {
        arbitrary()
    }
}

impl Region {
    /// The key under which this tag is exported.
    pub const EXPORT_NAME: &'static str = "region";

    /// A tag value holding `s`.
    pub fn from_text(s: &str) -> (r: Self)
        ensures
            r.0@ == s@,
    {
        Region(String::from_str(s))
    }

    /// The tag's text.
    pub fn as_str(&self) -> (r: &str)
        ensures
            r@ == self.0@,
    {
        self.0.as_str()
    }

    /// The tag's text, owned.
    pub fn to_string(&self) -> (r: String)
        ensures
            r@ == self.0@,
    {
        String::from_str(self.0.as_str())
    }

    /// The value as it goes into a metric's tag pairs.
    pub fn export_value(&self) -> (r: String)
        ensures
            r@ == self.0@,
    {
        self.to_string()
    }
}

impl From<String> for Region {
    fn from(s: String) -> (r: Self)
        ensures
            r.0 == s,
    {
        Region(s)
    }
}

impl vstd::std_specs::convert::FromSpecImpl<String> for Region {
    open spec fn obeys_from_spec() -> bool {
        true
    }

    open spec fn from_spec(s: String) -> Self {
        Region(s)
    }
}

impl From<&str> for Region {
    fn from(s: &str) -> (r: Self)
        ensures
            r.0@ == s@,
    {
        Region::from_text(s)
    }
}

impl vstd::std_specs::convert::FromSpecImpl<&str> for Region {
    /// An owned copy of a string has the same text but is not the same
    /// value in specifications, so this conversion states the text it
    /// keeps in the `ensures` of `from` instead.
    open spec fn obeys_from_spec() -> bool {
        false
    }

    open spec fn from_spec(s: &str) -> Self {
        arbitrary()
    }
}

// ---------------------------------------------------------------------------
// Namespaces
// ---------------------------------------------------------------------------

/// The path of the `http` namespace.
pub open spec fn http_path() -> Seq<Seq<char>> {
    seq!["http"@]
}

/// The path of the `resolver` namespace.
pub open spec fn resolver_path() -> Seq<Seq<char>> {
    seq!["resolver"@]
}

/// The path of the `auth` namespace, nested under `http`.
pub open spec fn http_auth_path() -> Seq<Seq<char>> {
    http_path().push("auth"@)
}

/// The `http` namespace.
#[derive(Debug, Clone, Copy, PartialEq, Eq, Structural, Hash)]
pub struct Http;

/// The `resolver` namespace.
#[derive(Debug, Clone, Copy, PartialEq, Eq, Structural, Hash)]
pub struct Resolver;

/// The `auth` namespace under `http`.
#[derive(Debug, Clone, Copy, PartialEq, Eq, Structural, Hash)]
pub struct HttpAuth;

impl Http {
    /// The namespace's segments, outermost first.
    pub fn path() -> (r: &'static [&'static str])
        ensures
            str_views(r@) == http_path(),
    {
        let r: &'static [&'static str] = &["http"];
        assert(str_views(r@) =~= http_path());
        r
    }
}

impl Resolver {
    /// The namespace's segments, outermost first.
    pub fn path() -> (r: &'static [&'static str])
        ensures
            str_views(r@) == resolver_path(),
    {
        let r: &'static [&'static str] = &["resolver"];
        assert(str_views(r@) =~= resolver_path());
        r
    }
}

impl HttpAuth {
    /// The namespace's segments, outermost first: the parent's path, then
    /// `auth`.
    pub fn path() -> (r: &'static [&'static str])
        ensures
            str_views(r@) == http_auth_path(),
    {
        let r: &'static [&'static str] = &["http", "auth"];
        assert(str_views(r@) =~= http_auth_path());
        r
    }
}

// ---------------------------------------------------------------------------
// Metrics
// ---------------------------------------------------------------------------

/// The pair an optional tag adds to a metric's tag pairs: one pair when the
/// tag is set, none when it is not.
pub open spec fn optional_pair(key: Seq<char>, value: Option<Seq<char>>) -> Seq<(Seq<char>, Seq<char>)> {
    match value {
        Some(v) => seq![(key, v)],
        None => Seq::empty(),
    }
}

/// Process uptime in seconds (gauge). A top-level metric without tags.
#[derive(Debug, Clone, PartialEq, Eq, Structural, Hash)]
pub struct Uptime {}

impl Uptime {
    /// The metric name without namespace segments.
    pub const NAME: &'static str = "uptime";

    /// The namespace path: empty, as the metric is top-level.
    pub fn namespace() -> (r: &'static [&'static str])
        ensures
            r@.len() == 0,
    {
        let r: &'static [&'static str] = &[];
        r
    }

    /// The `(export_name, value)` pairs of the set tags: none.
    pub fn export_pairs(&self) -> (r: Vec<(&'static str, String)>)
        ensures
            r@.len() == 0,
    {
        Vec::new()
    }
}

/// HTTP request latency in seconds (histogram), under `http`.
#[derive(Debug, Clone, PartialEq, Eq, Hash)]
pub struct HttpRequestLatency {
    pub endpoint: Endpoint,
    pub status: Status,
}

impl HttpRequestLatency {
    /// The metric name without namespace segments.
    pub const NAME: &'static str = "request_latency";

    /// The namespace path.
    pub fn namespace() -> (r: &'static [&'static str])
        ensures
            str_views(r@) == http_path(),
    {
        Http::path()
    }

    /// The `(export_name, value)` pairs of the set tags, in declaration
    /// order.
    pub fn export_pairs(&self) -> (r: Vec<(&'static str, String)>)
        ensures
            pair_views(r@) == seq![
                ("endpoint"@, self.endpoint.0@),
                ("status"@, status_text(self.status)),
            ],
    {
        let mut pairs: Vec<(&'static str, String)> = Vec::new();
        pairs.push((Endpoint::EXPORT_NAME, self.endpoint.export_value()));
        pairs.push((Status::EXPORT_NAME, self.status.export_value()));
        assert(pair_views(pairs@) =~= seq![
            ("endpoint"@, self.endpoint.0@),
            ("status"@, status_text(self.status)),
        ]);
        pairs
    }
}

/// Total number of HTTP requests (count), under `http`.
#[derive(Debug, Clone, PartialEq, Eq, Hash)]
pub struct HttpRequestCount {
    pub endpoint: Endpoint,
    pub status: Status,
}

impl HttpRequestCount {
    /// The metric name without namespace segments.
    pub const NAME: &'static str = "request_count";

    /// The namespace path.
    pub fn namespace() -> (r: &'static [&'static str])
        ensures
            str_views(r@) == http_path(),
    {
        Http::path()
    }

    /// The `(export_name, value)` pairs of the set tags, in declaration
    /// order.
    pub fn export_pairs(&self) -> (r: Vec<(&'static str, String)>)
        ensures
            pair_views(r@) == seq![
                ("endpoint"@, self.endpoint.0@),
                ("status"@, status_text(self.status)),
            ],
    {
        let mut pairs: Vec<(&'static str, String)> = Vec::new();
        pairs.push((Endpoint::EXPORT_NAME, self.endpoint.export_value()));
        pairs.push((Status::EXPORT_NAME, self.status.export_value()));
        assert(pair_views(pairs@) =~= seq![
            ("endpoint"@, self.endpoint.0@),
            ("status"@, status_text(self.status)),
        ]);
        pairs
    }
}

/// Current number of active connections (gauge), under `http`, with an
/// optional region.
#[derive(Debug, Clone, PartialEq, Eq, Hash)]
pub struct HttpActiveConnections {
    pub endpoint: Endpoint,
    pub region: Option<Region>,
}

impl HttpActiveConnections {
    /// The metric name without namespace segments.
    pub const NAME: &'static str = "active_connections";

    /// The namespace path.
    pub fn namespace() -> (r: &'static [&'static str])
        ensures
            str_views(r@) == http_path(),
    {
        Http::path()
    }

    /// The `(export_name, value)` pairs of the set tags, in declaration
    /// order; the region only when it is set.
    pub fn export_pairs(&self) -> (r: Vec<(&'static str, String)>)
        ensures
            pair_views(r@) == seq![("endpoint"@, self.endpoint.0@)] + optional_pair(
                "region"@,
                match self.region {
                    Some(v) => Some(v.0@),
                    None => None,
                },
            ),
    {
        let mut pairs: Vec<(&'static str, String)> = Vec::new();
        pairs.push((Endpoint::EXPORT_NAME, self.endpoint.export_value()));
        if let Some(ref value) = self.region {
            pairs.push((Region::EXPORT_NAME, value.export_value()));
        }
        assert(pair_views(pairs@) =~= seq![("endpoint"@, self.endpoint.0@)] + optional_pair(
            "region"@,
            match self.region {
                Some(v) => Some(v.0@),
                None => None,
            },
        ));
        pairs
    }
}

/// Resolver execution latency in seconds (histogram), under `resolver`.
/// Its status is exported as `resolver_status`, and an optional endpoint as
/// `resolver_fqn`.
#[derive(Debug, Clone, PartialEq, Eq, Hash)]
pub struct ResolverLatency {
    pub endpoint: Endpoint,
    pub resolver_status: Status,
    pub resolver_fqn: Option<Endpoint>,
}

impl ResolverLatency {
    /// The metric name without namespace segments.
    pub const NAME: &'static str = "latency";

    /// The namespace path.
    pub fn namespace() -> (r: &'static [&'static str])
        ensures
            str_views(r@) == resolver_path(),
    {
        Resolver::path()
    }

    /// The `(export_name, value)` pairs of the set tags, in declaration
    /// order, aliased tags under their alias; the fqn only when it is set.
    pub fn export_pairs(&self) -> (r: Vec<(&'static str, String)>)
        ensures
            pair_views(r@) == seq![
                ("endpoint"@, self.endpoint.0@),
                ("resolver_status"@, status_text(self.resolver_status)),
            ] + optional_pair(
                "resolver_fqn"@,
                match self.resolver_fqn {
                    Some(v) => Some(v.0@),
                    None => None,
                },
            ),
    {
        let mut pairs: Vec<(&'static str, String)> = Vec::new();
        pairs.push((Endpoint::EXPORT_NAME, self.endpoint.export_value()));
        pairs.push(("resolver_status", self.resolver_status.export_value()));
        if let Some(ref value) = self.resolver_fqn {
            pairs.push(("resolver_fqn", value.export_value()));
        }
        assert(pair_views(pairs@) =~= seq![
            ("endpoint"@, self.endpoint.0@),
            ("resolver_status"@, status_text(self.resolver_status)),
        ] + optional_pair(
            "resolver_fqn"@,
            match self.resolver_fqn {
                Some(v) => Some(v.0@),
                None => None,
            },
        ));
        pairs
    }
}

/// HTTP auth login attempts (count), under `http.auth`.
#[derive(Debug, Clone, PartialEq, Eq, Hash)]
pub struct HttpAuthLoginCount {
    pub endpoint: Endpoint,
    pub status: Status,
}

impl HttpAuthLoginCount {
    /// The metric name without namespace segments.
    pub const NAME: &'static str = "login_count";

    /// The namespace path.
    pub fn namespace() -> (r: &'static [&'static str])
        ensures
            str_views(r@) == http_auth_path(),
    {
        HttpAuth::path()
    }

    /// The `(export_name, value)` pairs of the set tags, in declaration
    /// order.
    pub fn export_pairs(&self) -> (r: Vec<(&'static str, String)>)
        ensures
            pair_views(r@) == seq![
                ("endpoint"@, self.endpoint.0@),
                ("status"@, status_text(self.status)),
            ],
    {
        let mut pairs: Vec<(&'static str, String)> = Vec::new();
        pairs.push((Endpoint::EXPORT_NAME, self.endpoint.export_value()));
        pairs.push((Status::EXPORT_NAME, self.status.export_value()));
        assert(pair_views(pairs@) =~= seq![
            ("endpoint"@, self.endpoint.0@),
            ("status"@, status_text(self.status)),
        ]);
        pairs
    }
}

} // verus!
