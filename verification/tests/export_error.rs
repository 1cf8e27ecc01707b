use chalk_metrics::export::ExportError;

#[test]
fn error_without_source() {
    let e = ExportError::new("send failed".to_string());
    assert_eq!(e.message, "send failed");
    assert!(e.source.is_none());
    assert_eq!(e.to_string(), "send failed");
}

#[test]
fn error_with_source() {
    let e = ExportError::with_source("connect failed".to_string(), "refused".to_string());
    assert_eq!(e.source.as_deref(), Some("refused"));
    assert_eq!(e.to_string(), "connect failed: refused");
}
