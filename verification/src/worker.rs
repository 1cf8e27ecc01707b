//! The decisions of the background flush worker. The worker itself (a
//! thread running an async runtime, a timer and a shutdown signal) lives
//! with the application; on each event it asks `worker_step` what to do,
//! and after a flush it asks `export_targets` which exporters to call.

use vstd::prelude::*;

verus! {

/// What the worker is woken by: a tick of its flush timer, or a shutdown
/// signal.
#[derive(Clone, Copy, Debug, PartialEq, Eq, Structural)]
pub enum WorkerEvent {
    Tick,
    Shutdown,
}

/// What the worker does next.
#[derive(Clone, Copy, Debug, PartialEq, Eq, Structural)]
pub enum WorkerAction {
    /// Nothing: the timer's first, immediate tick, or any event after the
    /// worker stopped.
    Nothing,
    /// Flush the aggregation map and export what it held.
    FlushAndExport,
    /// Flush and export one last time, then stop.
    FlushExportAndStop,
}

/// Where the worker stands: whether the timer's first tick went by, and
/// whether it stopped.
#[derive(Clone, Copy, Debug, PartialEq, Eq, Structural)]
pub struct WorkerState {
    pub started: bool,
    pub stopped: bool,
}

/// The worker's decision on an event: after it stopped, nothing; a
/// shutdown flushes, exports and stops; the timer's first tick, which comes
/// at once, only starts the worker; every later tick flushes and exports.
pub open spec fn step_spec(s: WorkerState, e: WorkerEvent) -> (WorkerState, WorkerAction) {
    if s.stopped {
        (s, WorkerAction::Nothing)
    } else {
        match e {
            WorkerEvent::Shutdown => (WorkerState { stopped: true, ..s }, WorkerAction::FlushExportAndStop),
            WorkerEvent::Tick => if s.started {
                (s, WorkerAction::FlushAndExport)
            } else {
                (WorkerState { started: true, ..s }, WorkerAction::Nothing)
            },
        }
    }
}

impl WorkerState {
    /// A worker whose timer has not ticked yet.
    pub fn new() -> (s: Self)
        ensures
            !s.started,
            !s.stopped,
    {
        WorkerState { started: false, stopped: false }
    }
}

/// Decide what to do on an event.
pub fn worker_step(s: WorkerState, e: WorkerEvent) -> (r: (WorkerState, WorkerAction))
    ensures
        r == step_spec(s, e),
{
    if s.stopped {
        (s, WorkerAction::Nothing)
    } else {
        match e {
            WorkerEvent::Shutdown => (WorkerState { stopped: true, ..s }, WorkerAction::FlushExportAndStop),
            WorkerEvent::Tick => if s.started {
                (s, WorkerAction::FlushAndExport)
            } else {
                (WorkerState { started: true, ..s }, WorkerAction::Nothing)
            },
        }
    }
}

/// The exporters to hand a flush to, by position, in order: none when the
/// flush held no metric, else every one of them, each whatever the others
/// answered.
pub fn export_targets(n_flushed: usize, n_exporters: usize) -> (v: Vec<usize>)
    ensures
        n_flushed == 0 ==> v@.len() == 0,
        n_flushed > 0 ==> v@ == Seq::new(n_exporters as nat, |i: int| i as usize),
{
    let mut v: Vec<usize> = Vec::new();
    if n_flushed == 0 {
        return v;
    }
    let mut i: usize = 0;
    while i < n_exporters
        invariant
            i <= n_exporters,
            v@ == Seq::new(i as nat, |j: int| j as usize),
        decreases n_exporters - i,
    {
        v.push(i);
        i = i + 1;
        assert(v@ =~= Seq::new(i as nat, |j: int| j as usize));
    }
    v
}

/// Once stopped, the worker stays stopped and does nothing more, whatever
/// comes.
pub proof fn lemma_stopped_stays(s: WorkerState, e: WorkerEvent)
    requires
        s.stopped,
    ensures
        step_spec(s, e) == (s, WorkerAction::Nothing),
{
}

/// A shutdown always ends with one last flush and export, unless the worker
/// had already stopped: no flush is lost to a shutdown.
pub proof fn lemma_shutdown_flushes_once(s: WorkerState)
    ensures
        !s.stopped ==> step_spec(s, WorkerEvent::Shutdown).1 == WorkerAction::FlushExportAndStop,
        step_spec(s, WorkerEvent::Shutdown).0.stopped,
        step_spec(step_spec(s, WorkerEvent::Shutdown).0, WorkerEvent::Shutdown).1 == WorkerAction::Nothing,
{
}

} // verus!
