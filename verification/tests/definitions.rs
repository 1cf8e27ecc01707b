use chalk_metrics::definitions::{
    parse_metrics_input, parse_namespaces_input, parse_tags_input, plan_metrics, token_text, Delim,
    Expected, ExportKey, ParseError, Span, Tok,
};
use chalk_metrics::schema::MetricType;

/// Split definition text into tokens the way the compiler hands them to a
/// macro: identifiers, string literals, punctuation (joined when another
/// punctuation character follows at once), and group delimiters.
fn tokens(src: &str) -> Vec<Tok> {
    let chars: Vec<char> = src.chars().collect();
    let mut out = Vec::new();
    let mut i = 0;
    while i < chars.len() {
        let c = chars[i];
        if c.is_whitespace() {
            i += 1;
        } else if c.is_alphabetic() || c == '_' {
            let start = i;
            while i < chars.len() && (chars[i].is_alphanumeric() || chars[i] == '_') {
                i += 1;
            }
            out.push(Tok::Ident(chars[start..i].iter().collect()));
        } else if c == '"' {
            let start = i + 1;
            i += 1;
            while chars[i] != '"' {
                i += 1;
            }
            out.push(Tok::Lit(chars[start..i].iter().collect()));
            i += 1;
        } else if let Some(d) = match c {
            '(' | ')' => Some(Delim::Paren),
            '[' | ']' => Some(Delim::Bracket),
            '{' | '}' => Some(Delim::Brace),
            _ => None,
        } {
            out.push(if "([{".contains(c) { Tok::Open(d) } else { Tok::Close(d) });
            i += 1;
        } else {
            let joint = i + 1 < chars.len() && "=>+:;,<".contains(chars[i + 1]) && "=+:".contains(c);
            out.push(Tok::Punct(c, joint));
            i += 1;
        }
    }
    out
}

fn text(t: &Vec<Tok>, span: Span) -> String {
    (span.start..span.end)
        .map(|i| match &t[i] {
            Tok::Punct(c, _) => c.to_string(),
            Tok::Open(Delim::Paren) => "(".to_string(),
            Tok::Close(Delim::Paren) => ")".to_string(),
            Tok::Open(_) | Tok::Close(_) => "?".to_string(),
            _ => token_text(t, i),
        })
        .collect()
}

const METRICS: &str = r#"
    group(tags = []) {
        pub gauge Uptime => "uptime", "Process uptime in seconds";
    }

    group(namespace = Http, tags = [Endpoint, Status]) {
        pub histogram HttpRequestLatency => "request_latency", "HTTP request latency in seconds";
        pub count HttpRequestCount => "request_count", "Total number of HTTP requests";
    }

    group(namespace = Http, tags = [Endpoint]) {
        pub gauge HttpActiveConnections => "active_connections",
            "Current number of active connections",
            tags += [
                optional Region,
            ];
    }

    group(namespace = Resolver, tags = [Endpoint]) {
        pub histogram ResolverLatency => "latency",
            "Resolver execution latency in seconds",
            tags += [
                Status as resolver_status,
                optional Endpoint as resolver_fqn,
            ];
    }

    group(namespace = HttpAuth, tags = [Endpoint, Status]) {
        pub count HttpAuthLoginCount => "login_count", "HTTP auth login attempts";
    }
"#;

#[test]
fn metric_definitions_expand_to_the_generated_structs() {
    let t = tokens(METRICS);
    let groups = parse_metrics_input(&t).expect("definitions parse");
    assert_eq!(groups.len(), 5);
    let plans = plan_metrics(&t, &groups);
    let names: Vec<String> = plans.iter().map(|p| token_text(&t, p.ident)).collect();
    assert_eq!(
        names,
        vec!["Uptime", "HttpRequestLatency", "HttpRequestCount", "HttpActiveConnections", "ResolverLatency", "HttpAuthLoginCount"]
    );
    let fields = |k: usize| -> Vec<String> { plans[k].fields.iter().map(|f| f.field.clone()).collect() };
    assert!(fields(0).is_empty());
    assert_eq!(fields(1), vec!["endpoint", "status"]);
    assert_eq!(fields(3), vec!["endpoint", "region"]);
    assert_eq!(fields(4), vec!["endpoint", "resolver_status", "resolver_fqn"]);

    assert_eq!(plans[0].namespace, None);
    assert_eq!(text(&t, plans[1].namespace.unwrap()), "Http");
    assert_eq!(text(&t, plans[5].namespace.unwrap()), "HttpAuth");

    assert_eq!(plans[1].kind, MetricType::Histogram);
    assert_eq!(plans[2].kind, MetricType::Count);
    assert_eq!(token_text(&t, plans[2].name), "request_count");
    assert_eq!(plans[1].doc, "HTTP request latency in seconds (histogram)");

    assert!(plans[3].fields[1].optional);
    assert!(!plans[3].fields[0].optional);
    assert!(matches!(plans[3].fields[1].key, ExportKey::OfTag(_)));
    match plans[4].fields[1].key {
        ExportKey::Alias(a) => assert_eq!(token_text(&t, a), "resolver_status"),
        ExportKey::OfTag(_) => panic!("expected an alias"),
    }
    assert!(plans[4].fields[2].optional);
    assert_eq!(text(&t, plans[4].fields[2].ty), "Endpoint");
}

#[test]
fn qualified_tag_paths_name_fields_by_their_last_segment() {
    let t = tokens("group(tags = [crate::tags::HttpMethod]) { pub(crate) count Calls => \"calls\", \"d\"; }");
    let groups = parse_metrics_input(&t).expect("parses");
    let plans = plan_metrics(&t, &groups);
    assert_eq!(plans[0].fields[0].field, "http_method");
    assert_eq!(text(&t, plans[0].fields[0].ty), "crate::tags::HttpMethod");
    assert_eq!(text(&t, plans[0].vis), "pub(crate)");
}

#[test]
fn malformed_metric_definitions_are_refused() {
    // Unknown metric kind.
    assert!(parse_metrics_input(&tokens("group() { pub counter C => \"c\", \"d\"; }")).is_err());
    // Missing semicolon.
    assert!(parse_metrics_input(&tokens("group() { pub count C => \"c\", \"d\" }")).is_err());
    // Unknown group argument.
    assert!(parse_metrics_input(&tokens("group(labels = []) { }")).is_err());
    // Empty input and empty groups are fine.
    assert_eq!(parse_metrics_input(&tokens("")).ok().map(|g| g.len()), Some(0));
    assert_eq!(parse_metrics_input(&tokens("group() {} group(tags = [A,],) {}")).ok().map(|g| g.len()), Some(2));
}

#[test]
fn tag_definitions_parse() {
    let t = tokens(
        r#"
        pub Status => "status" {
            Success => "success",
            Failure => "failure",
            Timeout => "timeout",
        }

        pub Endpoint => "endpoint";
        pub Region => "region";
    "#,
    );
    let defs = parse_tags_input(&t).expect("tags parse");
    assert_eq!(defs.len(), 3);
    assert_eq!(token_text(&t, defs[0].ident), "Status");
    assert_eq!(token_text(&t, defs[0].export_name), "status");
    let values = defs[0].values.as_ref().unwrap();
    assert_eq!(values.len(), 3);
    assert_eq!(token_text(&t, values[2].0), "Timeout");
    assert_eq!(token_text(&t, values[2].1), "timeout");
    assert!(defs[1].values.is_none());
    assert_eq!(token_text(&t, defs[2].export_name), "region");
    assert!(parse_tags_input(&tokens("pub Bad => \"bad\"")).is_err());
}

#[test]
fn namespace_definitions_parse() {
    let t = tokens(
        r#"
        pub Http => "http";
        pub Resolver => "resolver";
        pub HttpAuth(parent = Http) => "auth";
    "#,
    );
    let defs = parse_namespaces_input(&t).expect("namespaces parse");
    assert_eq!(defs.len(), 3);
    assert_eq!(defs[0].parent, None);
    assert_eq!(token_text(&t, defs[2].ident), "HttpAuth");
    assert_eq!(text(&t, defs[2].parent.unwrap()), "Http");
    assert_eq!(token_text(&t, defs[2].segment), "auth");
    assert!(parse_namespaces_input(&tokens("pub A(up = B) => \"a\";")).is_err());
}

#[test]
fn unknown_metric_kind_is_reported_at_its_token() {
    let t = tokens("group(tags = []) { pub timer BadMetric => \"bad_metric\", \"Bad metric\"; }");
    let e = parse_metrics_input(&t).unwrap_err();
    assert_eq!(e, ParseError { at: 9, expected: Expected::MetricKind });
    assert_eq!(token_text(&t, e.at), "timer");
    assert_eq!(e.message(), "expected metric type `count`, `gauge`, or `histogram`");
}

#[test]
fn parse_errors_say_where_and_what() {
    let t = tokens("group() { pub count C => \"c\", \"d\" }");
    let e = parse_metrics_input(&t).unwrap_err();
    assert_eq!(e.expected, Expected::Semicolon);
    assert_eq!(e.message(), "expected `;`");
    assert!(matches!(t[e.at], Tok::Close(Delim::Brace)));

    let e = parse_metrics_input(&tokens("group(labels = []) { }")).unwrap_err();
    assert_eq!(e, ParseError { at: 2, expected: Expected::GroupArg });
    assert_eq!(e.message(), "expected `namespace = ...` or `tags = [...]`");

    let e = parse_tags_input(&tokens("pub Bad => \"bad\"")).unwrap_err();
    assert_eq!(e, ParseError { at: 5, expected: Expected::Semicolon });
}

#[test]
fn keywords_are_not_names() {
    // A keyword cannot name a metric, a tag or an alias.
    assert_eq!(
        parse_metrics_input(&tokens("group() { pub count struct => \"c\", \"d\"; }")).unwrap_err(),
        ParseError { at: 6, expected: Expected::Ident }
    );
    assert!(parse_tags_input(&tokens("pub fn => \"f\";")).is_err());
    assert!(parse_metrics_input(&tokens("group(tags = [A as type]) {}")).is_err());
    // `crate`, `self` and `super` may start a path.
    assert!(parse_metrics_input(&tokens("group(tags = [crate::A, super::B]) {}")).is_ok());
}

#[test]
fn restricted_visibility_in_a_path() {
    let t = tokens("group() { pub(in crate::metrics) count C => \"c\", \"d\"; }");
    let groups = parse_metrics_input(&t).expect("parses");
    let plans = plan_metrics(&t, &groups);
    assert_eq!(text(&t, plans[0].vis), "pub(incrate::metrics)");
    assert_eq!(token_text(&t, plans[0].ident), "C");
}
