//! The lifecycle of the process-wide metrics client: it is initialized at
//! most once, and shut down at most once. The client itself (its worker
//! thread, its exporters and the global slot that holds it) lives with the
//! application; the decisions it takes are made here.

use vstd::prelude::*;

verus! {

/// Error returned when attempting to initialize the metrics client more
/// than once.
#[derive(Debug, Clone, Copy, PartialEq, Eq, Structural)]
pub struct AlreadyInitializedError;

impl AlreadyInitializedError {
    /// The error's message.
    pub fn to_string(&self) -> (s: String)
        ensures
            s@ == "chalk-metrics client already initialized"@,
    {
        String::from_str("chalk-metrics client already initialized")
    }
}

/// Where the global client stands: whether one was installed, and whether
/// a shutdown was asked for.
#[derive(Debug, Clone, Copy, PartialEq, Eq, Structural)]
pub struct Lifecycle {
    pub initialized: bool,
    pub shutdown_called: bool,
}

/// The state after an installation attempt: installed, either way.
pub open spec fn after_init(l: Lifecycle) -> Lifecycle {
    Lifecycle { initialized: true, shutdown_called: l.shutdown_called }
}

/// The state after a shutdown request: the request is remembered once a
/// client is installed. A request made before that changes nothing, so it
/// does not stand in the way of the installed client's shutdown.
pub open spec fn after_shutdown(l: Lifecycle) -> Lifecycle {
    Lifecycle { initialized: l.initialized, shutdown_called: l.shutdown_called || l.initialized }
}

/// Whether a shutdown request in state `l` must shut the client down: it
/// is the first request, and a client is installed.
pub open spec fn shutdown_runs(l: Lifecycle) -> bool {
    !l.shutdown_called && l.initialized
}

impl Lifecycle {
    /// Nothing installed, no shutdown asked for.
    pub fn new() -> (l: Self)
        ensures
            !l.initialized,
            !l.shutdown_called,
    {
        Lifecycle { initialized: false, shutdown_called: false }
    }

    /// Install the client. Only the first installation succeeds; a later
    /// one is refused.
    pub fn try_init(&mut self) -> (r: Result<(), AlreadyInitializedError>)
        ensures
            r is Ok <==> !old(self).initialized,
            *final(self) == after_init(*old(self)),
    {
        if self.initialized {
            Err(AlreadyInitializedError)
        } else {
            self.initialized = true;
            Ok(())
        }
    }

    /// Ask for a shutdown. The first request made while a client is
    /// installed is the one that counts: it answers `true`, the installed
    /// client must now be shut down. Every later request answers `false`,
    /// and so does a request made before any installation, which leaves the
    /// state as it is.
    pub fn shutdown(&mut self) -> (run: bool)
        ensures
            run == shutdown_runs(*old(self)),
            *final(self) == after_shutdown(*old(self)),
    {
        let run = !self.shutdown_called && self.initialized;
        if self.initialized {
            self.shutdown_called = true;
        }
        run
    }
}

/// Initialization happens once: after any installation attempt, a further
/// attempt is refused.
pub proof fn lemma_init_once(l: Lifecycle)
    ensures
        after_init(l).initialized,
        after_init(after_init(l)) == after_init(l),
{
}

/// Shutting down is idempotent: after any shutdown request, a further
/// request shuts nothing down and leaves the state as it is.
pub proof fn lemma_shutdown_idempotent(l: Lifecycle)
    ensures
        !shutdown_runs(after_shutdown(l)),
        after_shutdown(after_shutdown(l)) == after_shutdown(l),
{
}

/// A shutdown request before any installation is harmless: it leaves the
/// state unchanged, and the first request after an installation still
/// shuts the client down.
pub proof fn lemma_early_shutdown_harmless(l: Lifecycle)
    requires
        !l.initialized,
    ensures
        after_shutdown(l) == l,
        !l.shutdown_called ==> shutdown_runs(after_init(after_shutdown(l))),
{
}

/// The state after a run of requests from `l`: `true` stands for an
/// installation attempt, `false` for a shutdown request.
pub open spec fn after_requests(l: Lifecycle, reqs: Seq<bool>) -> Lifecycle
    decreases reqs.len(),
{
    if reqs.len() == 0 {
        l
    } else {
        let s = after_requests(l, reqs.drop_last());
        if reqs.last() {
            after_init(s)
        } else {
            after_shutdown(s)
        }
    }
}

/// A shutdown is never forgotten: an installation attempt, refused or not,
/// keeps a shutdown that was asked for, and once a shutdown request has
/// answered `true`, no run of installation attempts and shutdown requests
/// after it makes any shutdown request answer `true` again. Installing is
/// never undone either.
pub proof fn lemma_shutdown_runs_once(l: Lifecycle, reqs: Seq<bool>)
    ensures
        after_init(l).shutdown_called == l.shutdown_called,
        after_init(l).initialized,
        l.shutdown_called ==> after_requests(l, reqs).shutdown_called
            && !shutdown_runs(after_requests(l, reqs)),
        l.initialized ==> after_requests(l, reqs).initialized,
        shutdown_runs(l) ==> !shutdown_runs(after_requests(after_shutdown(l), reqs)),
    decreases reqs.len(),
{
    if reqs.len() > 0 {
        lemma_shutdown_runs_once(l, reqs.drop_last());
        lemma_shutdown_runs_once(after_shutdown(l), reqs.drop_last());
    }
}

} // verus!
