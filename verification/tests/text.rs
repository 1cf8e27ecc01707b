use chalk_metrics::definitions::text_eq;
use chalk_metrics::naming::to_snake_case;
use chalk_metrics::text::{format_name_path, join, push_decimal, push_signed_decimal};

#[test]
fn decimal_text() {
    let mut s = String::new();
    push_decimal(&mut s, 0);
    s.push(' ');
    push_decimal(&mut s, 1234567890);
    s.push(' ');
    push_decimal(&mut s, u64::MAX);
    assert_eq!(s, "0 1234567890 18446744073709551615");
}

#[test]
fn signed_decimal_text() {
    let mut s = String::new();
    push_signed_decimal(&mut s, -42);
    s.push(' ');
    push_signed_decimal(&mut s, i64::MIN);
    s.push(' ');
    push_signed_decimal(&mut s, 7);
    assert_eq!(s, "-42 -9223372036854775808 7");
}

#[test]
fn join_with_separator() {
    assert_eq!(join(&vec!["a", "b", "c"], "::"), "a::b::c");
    assert_eq!(join(&vec!["only"], "."), "only");
    assert_eq!(join(&vec![], "."), "");
}

#[test]
fn name_paths() {
    assert_eq!(format_name_path(Some("app"), &["http", "auth"], "login", "."), "app.http.auth.login");
    assert_eq!(format_name_path(None, &[], "m", "_"), "m");
    assert_eq!(format_name_path(None, &["ns"], "m", "_"), "ns_m");
}

#[test]
fn snake_case_names() {
    assert_eq!(to_snake_case("Endpoint"), "endpoint");
    assert_eq!(to_snake_case("HttpAuth"), "http_auth");
    assert_eq!(to_snake_case("HTTPStatus"), "h_t_t_p_status");
    assert_eq!(to_snake_case("already_snake"), "already_snake");
    assert_eq!(to_snake_case(""), "");
}

#[test]
fn text_equality() {
    assert!(text_eq("group", "group"));
    assert!(!text_eq("group", "groups"));
    assert!(!text_eq("tags", "tagz"));
    assert!(text_eq("", ""));
}
