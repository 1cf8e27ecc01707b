use chalk_metrics::client::{AlreadyInitializedError, Lifecycle};

#[test]
fn init_succeeds_once() {
    let mut l = Lifecycle::new();
    assert!(l.try_init().is_ok());
    assert_eq!(l.try_init(), Err(AlreadyInitializedError));
    assert!(l.initialized);
}

#[test]
fn shutdown_runs_once_after_init() {
    let mut l = Lifecycle::new();
    l.try_init().unwrap();
    assert!(l.shutdown());
    assert!(!l.shutdown());
    assert!(!l.shutdown());
}

#[test]
fn shutdown_before_init_does_not_block_the_real_one() {
    let mut l = Lifecycle::new();
    assert!(!l.shutdown());
    assert!(!l.shutdown_called);
    l.try_init().unwrap();
    assert!(l.shutdown());
    assert!(!l.shutdown());
}

#[test]
fn already_initialized_message() {
    assert_eq!(AlreadyInitializedError.to_string(), "chalk-metrics client already initialized");
}

