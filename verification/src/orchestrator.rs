//! The course of a scan, as the thread that leads it decides it.
//!
//! The leader starts the workers and the aggregator, and looks at the
//! work queue until it is quiescent. Only then it releases the workers,
//! with one sentinel for each, and waits for them to end. Then it waits
//! for the queue of batches to be quiescent, releases the aggregator with
//! one sentinel, and waits for it to end.

use vstd::prelude::*;
use crate::worker_queue::{FinishStep, QueueError};

verus! {

/// How far a scan has come.
#[derive(Debug, Clone, Copy, PartialEq, Eq, Structural)]
pub enum Phase {
    /// Nothing runs yet.
    Starting,
    /// The workers run; the leader looks at the work queue.
    Scanning,
    /// The workers were released; the leader waits for them to end.
    StoppingWorkers,
    /// The workers have ended; the leader looks at the queue of batches.
    Draining,
    /// The aggregator was released; the leader waits for it to end.
    StoppingAggregator,
    /// The scan is over.
    Finished,
    /// The scan was given up.
    Failed,
}

/// What the leader learns.
#[derive(Debug, Clone, Copy)]
pub enum Event {
    /// The scan is to begin.
    Begin,
    /// What a wait for quiescence came back with.
    Looked(Result<FinishStep, QueueError>),
    /// The threads waited for have ended.
    Joined,
}

/// What the leader does next.
#[derive(Debug, Clone, Copy, PartialEq, Eq, Structural)]
pub enum Action {
    /// Queue the root, start this many workers and the aggregator, then
    /// wait for the work queue.
    Start { workers: usize },
    /// Wait for the work queue once more.
    WaitForWork,
    /// Push this many sentinels onto the work queue and wait for the
    /// workers to end.
    ReleaseWorkers { sentinels: usize },
    /// Wait for the queue of batches.
    WaitForBatches,
    /// Push one sentinel onto the queue of batches and wait for the
    /// aggregator to end.
    ReleaseAggregator,
    /// Leave.
    Finish,
    /// Give up for what the queue reported.
    Fail(QueueError),
    /// Give up: this cannot follow what went before.
    Refuse,
}

/// The phase that follows `phase` on `event`, and what the leader does.
pub open spec fn next(phase: Phase, workers: usize, event: Event) -> (Phase, Action) {
    match (phase, event) {
        (Phase::Starting, Event::Begin) => (Phase::Scanning, Action::Start { workers }),
        (Phase::Scanning, Event::Looked(Ok(FinishStep::Quiescent(_)))) => (
            Phase::StoppingWorkers,
            Action::ReleaseWorkers { sentinels: workers },
        ),
        (Phase::Scanning, Event::Looked(Ok(_))) => (Phase::Scanning, Action::WaitForWork),
        (Phase::Scanning, Event::Looked(Err(e))) => (Phase::Failed, Action::Fail(e)),
        (Phase::StoppingWorkers, Event::Joined) => (Phase::Draining, Action::WaitForBatches),
        (Phase::Draining, Event::Looked(Ok(FinishStep::Quiescent(_)))) => (
            Phase::StoppingAggregator,
            Action::ReleaseAggregator,
        ),
        (Phase::Draining, Event::Looked(Ok(_))) => (Phase::Draining, Action::WaitForBatches),
        (Phase::Draining, Event::Looked(Err(e))) => (Phase::Failed, Action::Fail(e)),
        (Phase::StoppingAggregator, Event::Joined) => (Phase::Finished, Action::Finish),
        _ => (Phase::Failed, Action::Refuse),
    }
}

/// What the leader of a scan with `workers` workers does in `phase` when
/// it learns `event`, and the phase that follows.
pub fn step(phase: Phase, workers: usize, event: Event) -> (r: (Phase, Action))
    ensures
        r == next(phase, workers, event),
{
    match phase {
        Phase::Starting => match event {
            Event::Begin => (Phase::Scanning, Action::Start { workers }),
            _ => (Phase::Failed, Action::Refuse),
        },
        Phase::Scanning => match event {
            Event::Looked(Ok(FinishStep::Quiescent(_))) => (
                Phase::StoppingWorkers,
                Action::ReleaseWorkers { sentinels: workers },
            ),
            Event::Looked(Ok(_)) => (Phase::Scanning, Action::WaitForWork),
            Event::Looked(Err(e)) => (Phase::Failed, Action::Fail(e)),
            _ => (Phase::Failed, Action::Refuse),
        },
        Phase::StoppingWorkers => match event {
            Event::Joined => (Phase::Draining, Action::WaitForBatches),
            _ => (Phase::Failed, Action::Refuse),
        },
        Phase::Draining => match event {
            Event::Looked(Ok(FinishStep::Quiescent(_))) => (Phase::StoppingAggregator,
                Action::ReleaseAggregator),
            Event::Looked(Ok(_)) => (Phase::Draining, Action::WaitForBatches),
            Event::Looked(Err(e)) => (Phase::Failed, Action::Fail(e)),
            _ => (Phase::Failed, Action::Refuse),
        },
        Phase::StoppingAggregator => match event {
            Event::Joined => (Phase::Finished, Action::Finish),
            _ => (Phase::Failed, Action::Refuse),
        },
        _ => (Phase::Failed, Action::Refuse),
    }
}

/// Whether `event` says that a queue was seen quiescent.
pub open spec fn saw_quiescence(event: Event) -> bool {
    match event {
        Event::Looked(Ok(FinishStep::Quiescent(_))) => true,
        _ => false,
    }
}

/// Workers are released only when the work queue was seen quiescent, and
/// with one sentinel for each worker; the aggregator only when the
/// workers have ended and the queue of batches was seen quiescent.
pub proof fn law_release_after_quiescence(phase: Phase, workers: usize, event: Event)
    ensures
        next(phase, workers, event).1 is ReleaseWorkers
            ==> (phase == Phase::Scanning && saw_quiescence(event) && next(
            phase,
            workers,
            event,
        ).1 == (Action::ReleaseWorkers { sentinels: workers })),
        next(phase, workers, event).1 is ReleaseAggregator
            ==> (phase == Phase::Draining && saw_quiescence(event)),
        next(phase, workers, event).0 == Phase::Draining
            ==> (phase == Phase::StoppingWorkers || phase == Phase::Draining),
        next(phase, workers, event).0 == Phase::Finished
            ==> (phase == Phase::StoppingAggregator && event == Event::Joined),
{
}

} // verus!
