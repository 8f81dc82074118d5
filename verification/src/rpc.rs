//! The decisions of polling a task that is handed to a worker: a new task
//! is sent to the worker on its first poll and is then waited for until the
//! worker marks it done.

use vstd::prelude::*;

verus! {

/// Where a task stands.
#[derive(PartialEq, Eq, Structural, Clone, Copy, Debug)]
pub enum TaskStatus {
    /// Not yet handed to the worker.
    Born,
    /// Handed to the worker, not done.
    Running,
    /// Done by the worker.
    Runned,
}

/// How handing a task to the worker went.
#[derive(PartialEq, Eq, Structural, Clone, Copy, Debug)]
pub enum SendOutcome {
    Sent,
    /// The worker's queue is full.
    Full,
    /// The worker is gone.
    Closed,
}

/// The answer to a poll.
#[derive(PartialEq, Eq, Structural, Clone, Copy, Debug)]
pub enum TaskPoll {
    Pending,
    /// The task is done.
    Done,
    /// The task cannot be done: the worker is gone.
    Failed,
}

/// What a poll does first.
#[derive(PartialEq, Eq, Structural, Clone, Copy, Debug)]
pub enum PollStep {
    /// Hand the task to the worker, then answer by `after_send`.
    Send,
    /// Answer at once.
    Answer(TaskPoll),
}

/// What a poll of a task in `status` does first.
pub open spec fn step_of(status: TaskStatus) -> PollStep {
    match status {
        TaskStatus::Born => PollStep::Send,
        TaskStatus::Running => PollStep::Answer(TaskPoll::Pending),
        TaskStatus::Runned => PollStep::Answer(TaskPoll::Done),
    }
}

/// The status and the answer after a send with this outcome.
pub open spec fn sent(outcome: SendOutcome) -> (TaskStatus, TaskPoll) {
    match outcome {
        SendOutcome::Sent => (TaskStatus::Running, TaskPoll::Pending),
        SendOutcome::Full => (TaskStatus::Born, TaskPoll::Pending),
        SendOutcome::Closed => (TaskStatus::Born, TaskPoll::Failed),
    }
}

/// What a poll of a task in `status` does first: a new task is handed to
/// the worker; a running one is pending; a finished one is done.
pub fn poll_step(status: TaskStatus) -> (r: PollStep)
    ensures
        r == step_of(status),
{
    match status {
        TaskStatus::Born => PollStep::Send,
        TaskStatus::Running => PollStep::Answer(TaskPoll::Pending),
        TaskStatus::Runned => PollStep::Answer(TaskPoll::Done),
    }
}

/// The status and the answer after handing a new task to the worker: sent,
/// it runs and the poll is pending; with the queue full it stays new and
/// pending; with the worker gone the poll fails.
pub fn after_send(outcome: SendOutcome) -> (r: (TaskStatus, TaskPoll))
    ensures
        r == sent(outcome),
{
    match outcome {
        SendOutcome::Sent => (TaskStatus::Running, TaskPoll::Pending),
        SendOutcome::Full => (TaskStatus::Born, TaskPoll::Pending),
        SendOutcome::Closed => (TaskStatus::Born, TaskPoll::Failed),
    }
}

/// A task is answered done only once the worker has marked it run: a poll
/// answers `Done` exactly for a task in `Runned`, and handing a task to the
/// worker neither finishes it nor answers `Done`.
pub proof fn law_done_only_after_run(status: TaskStatus, outcome: SendOutcome)
    ensures
        (step_of(status) == PollStep::Answer(TaskPoll::Done)) <==> status == TaskStatus::Runned,
        sent(outcome).0 != TaskStatus::Runned,
        sent(outcome).1 != TaskPoll::Done,
{
}

/// A poll never fails by itself: the only failure comes from handing a new
/// task to a worker that is gone. A task handed to the worker and not yet
/// done is answered `Pending`, and only such a task (or a new one that could
/// not be queued) is; a new task is always handed on first.
pub proof fn law_running_task_is_pending(status: TaskStatus, outcome: SendOutcome)
    ensures
        step_of(status) != PollStep::Answer(TaskPoll::Failed),
        (step_of(status) == PollStep::Answer(TaskPoll::Pending)) <==> status == TaskStatus::Running,
        (step_of(status) == PollStep::Send) <==> status == TaskStatus::Born,
        (sent(outcome).1 == TaskPoll::Failed) <==> outcome == SendOutcome::Closed,
        (sent(outcome).0 == TaskStatus::Running) <==> outcome == SendOutcome::Sent,
        sent(outcome).1 != TaskPoll::Done,
{
}

} // verus!
