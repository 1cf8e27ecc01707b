use chalk_metrics::worker::{export_targets, worker_step, WorkerAction, WorkerEvent, WorkerState};

#[test]
fn first_tick_only_starts_the_worker() {
    let s = WorkerState::new();
    let (s, a) = worker_step(s, WorkerEvent::Tick);
    assert_eq!(a, WorkerAction::Nothing);
    let (s, a) = worker_step(s, WorkerEvent::Tick);
    assert_eq!(a, WorkerAction::FlushAndExport);
    let (_, a) = worker_step(s, WorkerEvent::Tick);
    assert_eq!(a, WorkerAction::FlushAndExport);
}

#[test]
fn shutdown_flushes_once_then_nothing() {
    let s = WorkerState::new();
    let (s, _) = worker_step(s, WorkerEvent::Tick);
    let (s, a) = worker_step(s, WorkerEvent::Shutdown);
    assert_eq!(a, WorkerAction::FlushExportAndStop);
    assert!(s.stopped);
    assert_eq!(worker_step(s, WorkerEvent::Tick).1, WorkerAction::Nothing);
    assert_eq!(worker_step(s, WorkerEvent::Shutdown).1, WorkerAction::Nothing);
}

#[test]
fn exporters_called_only_for_nonempty_flushes() {
    assert!(export_targets(0, 3).is_empty());
    assert_eq!(export_targets(5, 3), vec![0, 1, 2]);
    assert!(export_targets(5, 0).is_empty());
}
