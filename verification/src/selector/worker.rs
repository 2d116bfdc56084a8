//! Decisions of the one owned migration worker. It never spawns a detached
//! child, and source notifications update failover clocks without a round.
use vstd::prelude::*;

use super::RouteError;

verus! {

/// What woke the worker.
#[derive(Clone, Copy, Debug, PartialEq, Eq, Structural)]
pub enum Wake {
    /// The stop signal changed.
    Stop,
    /// The lifecycle changed, or its publisher is gone.
    Lifecycle {
        /// The publisher is gone.
        gone: bool,
    },
    /// A configuration or backend source changed, or its publisher is gone.
    Source {
        /// The publisher is gone.
        gone: bool,
    },
    /// The ticker ticked.
    Tick,
}

/// What the worker does next.
#[derive(Clone, Copy, Debug, PartialEq, Eq, Structural)]
pub enum WorkerStep {
    /// Capture the current candidate and run a migration round.
    Round,
    /// Capture the current candidate and refresh the failover clocks.
    Refresh,
    /// The worker ends without an error.
    Finish,
    /// The worker ends with an error.
    Fail(RouteError),
}

/// Whether a refusal only means that the sources are not ready: the worker
/// waits for their next publication.
pub open spec fn transient(error: RouteError) -> bool {
    error is StaleCandidate || error is ControlUnavailable
}

/// Decide [`transient`].
pub fn is_transient(error: RouteError) -> (r: bool)
    ensures
        r == transient(error),
{
    match error {
        RouteError::StaleCandidate | RouteError::ControlUnavailable => true,
        _ => false,
    }
}

/// Begin a worker, which must be the only one.
///
/// # Errors
/// `WorkerRunning` for a second worker.
pub fn start(running: bool) -> (r: Result<(), RouteError>)
    ensures
        r == (if running {
            Err::<(), RouteError>(RouteError::WorkerRunning)
        } else {
            Ok(())
        }),
{
    if running {
        Err(RouteError::WorkerRunning)
    } else {
        Ok(())
    }
}

/// Whether the worker may go on: it was not stopped, and the owner is ready.
pub fn may_run(stopped: bool, ready: bool) -> (r: bool)
    ensures
        r == (!stopped && ready),
{
    !stopped && ready
}

/// Decide what the worker does after it woke. `stopped` and `ready` are read
/// after the wake.
pub fn woken(wake: Wake, stopped: bool, ready: bool) -> (r: WorkerStep)
    ensures
        r == (match wake {
            Wake::Lifecycle { gone: true } => WorkerStep::Finish,
            Wake::Source { gone: true } => WorkerStep::Fail(RouteError::ControlUnavailable),
            _ => if stopped || !ready {
                WorkerStep::Finish
            } else if wake is Tick {
                WorkerStep::Round
            } else {
                WorkerStep::Refresh
            },
        }),
{
    match wake {
        Wake::Lifecycle { gone: true } => WorkerStep::Finish,
        Wake::Source { gone: true } => WorkerStep::Fail(RouteError::ControlUnavailable),
        _ => if stopped || !ready {
            WorkerStep::Finish
        } else {
            match wake {
                Wake::Tick => WorkerStep::Round,
                _ => WorkerStep::Refresh,
            }
        },
    }
}

/// Take the outcome of a capture, refresh or round: the worker goes on after a
/// success or a transient refusal.
///
/// # Errors
/// Any other refusal ends the worker.
pub fn settled(outcome: Result<(), RouteError>) -> (r: Result<(), RouteError>)
    ensures
        match outcome {
            Ok(_) => r == Ok::<(), RouteError>(()),
            Err(error) => r == (if transient(error) {
                Ok::<(), RouteError>(())
            } else {
                Err(error)
            }),
        },
{
    match outcome {
        Ok(_) => Ok(()),
        Err(error) => if is_transient(error) {
            Ok(())
        } else {
            Err(error)
        },
    }
}

/// A stopped or unready owner gets neither a round nor a refresh, whatever woke
/// the worker: it ends, and with an error only where a source is gone.
pub proof fn law_a_halted_worker_ends(wake: Wake, stopped: bool, ready: bool, step: WorkerStep)
    requires
        call_ensures(woken, (wake, stopped, ready), step),
        stopped || !ready,
    ensures
        !(step is Round),
        !(step is Refresh),
        step is Fail <==> wake == (Wake::Source { gone: true }),
{
}

/// While the owner runs, a round is begun by the ticker and by nothing else, a
/// refresh by every other wake whose publisher is there, and the worker ends
/// only where a publisher is gone.
pub proof fn law_only_ticks_begin_rounds(wake: Wake, step: WorkerStep)
    requires
        call_ensures(woken, (wake, false, true), step),
    ensures
        step is Round <==> wake is Tick,
        step is Finish <==> wake == (Wake::Lifecycle { gone: true }),
        step is Fail <==> wake == (Wake::Source { gone: true }),
        step is Fail ==> step == WorkerStep::Fail(RouteError::ControlUnavailable),
{
}

/// A worker ends with exactly the refusals that no later publication can lift,
/// and hands each of them out unchanged.
pub proof fn law_refusals_that_end_a_worker(error: RouteError, r: Result<(), RouteError>)
    requires
        call_ensures(settled, (Err::<(), RouteError>(error),), r),
    ensures
        r is Ok <==> error == RouteError::StaleCandidate || error
            == RouteError::ControlUnavailable,
        r is Err ==> r->Err_0 == error,
{
}

/// A success never ends a worker.
pub proof fn law_successes_keep_a_worker(outcome: Result<(), RouteError>, r: Result<(), RouteError>)
    requires
        outcome is Ok,
        call_ensures(settled, (outcome,), r),
    ensures
        r is Ok,
{
}

/// Of two workers that are begun, the second is refused; and a worker that began
/// may run on exactly until it is stopped or its owner is no longer ready.
pub proof fn law_one_worker_runs(
    first: Result<(), RouteError>,
    second: Result<(), RouteError>,
    stopped: bool,
    ready: bool,
    on: bool,
)
    requires
        call_ensures(start, (false,), first),
        call_ensures(start, (first is Ok,), second),
        call_ensures(may_run, (stopped, ready), on),
    ensures
        first is Ok,
        second matches Err(error) && error == RouteError::WorkerRunning,
        stopped ==> !on,
        !ready ==> !on,
        !on ==> stopped || !ready,
{
}

} // verus!
