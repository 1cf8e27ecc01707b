use chalk_metrics::schema::{
    sort_names, text_less, MetricDefinition, MetricTagRef, MetricType, MetricsSchema,
    NamespaceDefinition, TagDefinition, TagValueType, ValidationError,
};

fn metric(name: &str, metric_type: MetricType, tags: &[&str], description: &str) -> MetricDefinition {
    MetricDefinition {
        name: name.to_string(),
        metric_type,
        tags: tags
            .iter()
            .map(|t| MetricTagRef { tag: t.to_string(), export_name: None, optional: false })
            .collect(),
        description: description.to_string(),
    }
}

fn enum_tag(values: Option<&[&str]>, export_name: &str) -> TagDefinition {
    TagDefinition {
        value_type: TagValueType::Enum,
        values: values.map(|vs| vs.iter().map(|v| v.to_string()).collect()),
        export_name: export_name.to_string(),
    }
}

fn string_tag(export_name: &str) -> TagDefinition {
    TagDefinition { value_type: TagValueType::String, values: None, export_name: export_name.to_string() }
}

fn namespace(metrics: Vec<MetricDefinition>, namespaces: Vec<(String, NamespaceDefinition)>) -> NamespaceDefinition {
    NamespaceDefinition { metrics, namespaces }
}

fn errors_of(schema: &MetricsSchema) -> Vec<String> {
    match schema.validate() {
        Ok(()) => panic!("expected validation errors"),
        Err(ValidationError { errors }) => errors,
    }
}

#[test]
fn test_parse_minimal_schema() {
    let schema = MetricsSchema { tags: vec![], metrics: vec![], namespaces: vec![] };
    assert!(schema.tags.is_empty());
    assert!(schema.metrics.is_empty());
    assert!(schema.namespaces.is_empty());
    assert!(schema.validate().is_ok());
}

#[test]
fn test_parse_full_example() {
    let schema = MetricsSchema {
        tags: vec![
            ("status".to_string(), enum_tag(Some(&["success", "failure", "timeout"]), "status")),
            ("endpoint".to_string(), string_tag("endpoint")),
        ],
        metrics: vec![metric("request_latency", MetricType::Histogram, &["endpoint", "status"], "HTTP request latency")],
        namespaces: vec![],
    };
    assert_eq!(schema.tags.len(), 2);
    assert_eq!(schema.metrics.len(), 1);
    assert!(schema.validate().is_ok());
}

#[test]
fn test_parse_with_namespaces() {
    let auth = namespace(vec![metric("login_latency", MetricType::Histogram, &[], "Login latency")], vec![]);
    let http = namespace(
        vec![metric("request_count", MetricType::Count, &["status"], "HTTP requests")],
        vec![("auth".to_string(), auth)],
    );
    let schema = MetricsSchema {
        tags: vec![("status".to_string(), enum_tag(Some(&["ok"]), "status"))],
        metrics: vec![metric("uptime", MetricType::Gauge, &[], "top-level")],
        namespaces: vec![("http".to_string(), http)],
    };
    assert!(schema.validate().is_ok());

    let flat = schema.flatten_metrics();
    assert_eq!(flat.len(), 3);

    assert!(flat[0].namespace.is_empty());
    assert_eq!(flat[0].metric.name, "uptime");

    assert_eq!(flat[1].namespace, vec!["http"]);
    assert_eq!(flat[1].metric.name, "request_count");

    assert_eq!(flat[2].namespace, vec!["http", "auth"]);
    assert_eq!(flat[2].metric.name, "login_latency");
}

#[test]
fn test_parse_count_and_gauge_types() {
    let schema = MetricsSchema {
        tags: vec![],
        metrics: vec![
            metric("req_count", MetricType::Count, &[], "count"),
            metric("temperature", MetricType::Gauge, &[], "gauge"),
        ],
        namespaces: vec![],
    };
    assert_eq!(schema.metrics[0].metric_type, MetricType::Count);
    assert_eq!(schema.metrics[1].metric_type, MetricType::Gauge);
}

#[test]
fn test_validate_missing_tag_ref_in_namespace() {
    let ns = namespace(vec![metric("m1", MetricType::Count, &["nonexistent"], "test")], vec![]);
    let schema = MetricsSchema { tags: vec![], metrics: vec![], namespaces: vec![("ns".to_string(), ns)] };
    let errors = errors_of(&schema);
    assert!(errors[0].contains("ns::m1"));
    assert!(errors[0].contains("undefined tag 'nonexistent'"));
}

#[test]
fn test_validate_duplicate_metric_names_same_namespace() {
    let ns = namespace(
        vec![
            metric("dup", MetricType::Count, &[], "first"),
            metric("dup", MetricType::Gauge, &[], "second"),
        ],
        vec![],
    );
    let schema = MetricsSchema { tags: vec![], metrics: vec![], namespaces: vec![("ns".to_string(), ns)] };
    let errors = errors_of(&schema);
    assert!(errors[0].contains("duplicate metric 'ns::dup'"));
}

#[test]
fn test_same_name_different_namespaces_is_ok() {
    let http = namespace(vec![metric("request_count", MetricType::Count, &[], "HTTP")], vec![]);
    let grpc = namespace(vec![metric("request_count", MetricType::Count, &[], "gRPC")], vec![]);
    let schema = MetricsSchema {
        tags: vec![],
        metrics: vec![],
        namespaces: vec![("http".to_string(), http), ("grpc".to_string(), grpc)],
    };
    assert!(schema.validate().is_ok());
}

#[test]
fn test_validate_enum_tag_no_values() {
    let schema = MetricsSchema {
        tags: vec![("bad_tag".to_string(), enum_tag(None, "bad"))],
        metrics: vec![],
        namespaces: vec![],
    };
    let errors = errors_of(&schema);
    assert!(errors[0].contains("must have a 'values' field"));
}

#[test]
fn test_validate_enum_tag_empty_values() {
    let schema = MetricsSchema {
        tags: vec![("empty".to_string(), enum_tag(Some(&[]), "empty"))],
        metrics: vec![],
        namespaces: vec![],
    };
    let errors = errors_of(&schema);
    assert!(errors[0].contains("at least one value"));
}

#[test]
fn duplicate_error_names_both_indices() {
    let schema = MetricsSchema {
        tags: vec![],
        metrics: vec![
            metric("a", MetricType::Count, &[], ""),
            metric("b", MetricType::Count, &[], ""),
            metric("a", MetricType::Gauge, &[], ""),
        ],
        namespaces: vec![],
    };
    let errors = errors_of(&schema);
    assert_eq!(errors.len(), 1);
    assert!(errors[0].contains("(indices 0 and 2)"), "{}", errors[0]);
}

#[test]
fn top_level_undefined_tag_message() {
    let schema = MetricsSchema {
        tags: vec![],
        metrics: vec![metric("m", MetricType::Count, &["t"], "")],
        namespaces: vec![],
    };
    let errors = errors_of(&schema);
    assert_eq!(errors, vec!["metric 'm': references undefined tag 't'".to_string()]);
}

#[test]
fn validation_error_text_lists_each_error() {
    let e = ValidationError { errors: vec!["one".to_string(), "two".to_string()] };
    assert_eq!(e.to_string(), "- one\n- two");
    let empty = ValidationError { errors: vec![] };
    assert_eq!(empty.to_string(), "");
}

#[test]
fn names_sort_by_text() {
    assert!(text_less("a", "b"));
    assert!(text_less("a", "ab"));
    assert!(!text_less("b", "a"));
    assert!(!text_less("a", "a"));
    let v = vec![("http".to_string(), 1), ("auth".to_string(), 2), ("grpc".to_string(), 3)];
    assert_eq!(sort_names(&v), vec![1, 2, 0]);
}

#[test]
fn flatten_orders_sibling_namespaces_by_name() {
    let b = namespace(vec![metric("x", MetricType::Count, &[], "")], vec![]);
    let a = namespace(vec![metric("y", MetricType::Count, &[], "")], vec![]);
    let schema = MetricsSchema {
        tags: vec![],
        metrics: vec![],
        namespaces: vec![("b".to_string(), b), ("a".to_string(), a)],
    };
    let flat = schema.flatten_metrics();
    assert_eq!(flat.len(), 2);
    assert_eq!(flat[0].namespace, vec!["a"]);
    assert_eq!(flat[0].metric.name, "y");
    assert_eq!(flat[1].namespace, vec!["b"]);
}

#[test]
fn every_problem_is_reported_once() {
    let schema = MetricsSchema {
        tags: vec![
            ("e1".to_string(), enum_tag(None, "e1")),
            ("e2".to_string(), enum_tag(Some(&[]), "e2")),
            ("s".to_string(), string_tag("s")),
        ],
        metrics: vec![
            metric("a", MetricType::Count, &["x", "s", "y"], ""),
            metric("a", MetricType::Count, &[], ""),
            metric("a", MetricType::Gauge, &[], ""),
        ],
        namespaces: vec![],
    };
    let errors = errors_of(&schema);
    assert_eq!(errors.len(), 6);
    assert!(errors[2].contains("(indices 0 and 1)"), "{}", errors[2]);
    assert!(errors[3].contains("(indices 1 and 2)"), "{}", errors[3]);
    assert!(errors[5].contains("undefined tag 'y'"), "{}", errors[5]);
}
