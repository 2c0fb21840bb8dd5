//! Decisions of a thread-pool worker.
//!
//! A worker alternates between reading the pool's `active` flag and popping
//! the shared job queue. While the pool is active it runs every job it pops
//! and spins when the queue is empty; once it has seen the flag cleared it
//! drains the queue, running the remaining jobs, and exits when the queue is
//! empty. The thread running the worker performs the reads, pops and job
//! calls; [`worker_step`] decides what comes next.

use vstd::prelude::*;

verus! {

/// Where a worker is in its loop, and so what it observes next.
#[derive(Debug, Clone, Copy, PartialEq, Eq, Structural)]
pub enum WorkerState {
    /// About to read the `active` flag.
    CheckActive,
    /// The pool is active; about to pop a job.
    Poll,
    /// The pool has shut down; about to pop a remaining job.
    Drain,
    /// The worker has exited.
    Done,
}

/// What the worker does after an observation.
#[derive(Debug, Clone, Copy, PartialEq, Eq, Structural)]
pub enum WorkerAction {
    /// Run the job it popped, then go on.
    RunJob,
    /// Nothing to run yet: spin briefly, then go on.
    Spin,
    /// Go on to the next observation.
    Continue,
    /// Leave the loop; the worker thread ends.
    Exit,
}

/// The worker's transition: in `CheckActive` the observation is the value of
/// the `active` flag; in `Poll` and `Drain` it is whether the pop found a
/// job.
pub open spec fn worker_transition(state: WorkerState, observed: bool) -> (WorkerState, WorkerAction) {
    match state {
        WorkerState::CheckActive => if observed {
            (WorkerState::Poll, WorkerAction::Continue)
        } else {
            (WorkerState::Drain, WorkerAction::Continue)
        },
        WorkerState::Poll => if observed {
            (WorkerState::CheckActive, WorkerAction::RunJob)
        } else {
            (WorkerState::CheckActive, WorkerAction::Spin)
        },
        WorkerState::Drain => if observed {
            (WorkerState::Drain, WorkerAction::RunJob)
        } else {
            (WorkerState::Done, WorkerAction::Exit)
        },
        WorkerState::Done => (WorkerState::Done, WorkerAction::Exit),
    }
}

/// Decides the worker's next state and action from its state and what it
/// just observed.
pub fn worker_step(state: WorkerState, observed: bool) -> (result: (WorkerState, WorkerAction))
    ensures
        result == worker_transition(state, observed),
{
    match state {
        WorkerState::CheckActive => if observed {
            (WorkerState::Poll, WorkerAction::Continue)
        } else {
            (WorkerState::Drain, WorkerAction::Continue)
        },
        WorkerState::Poll => if observed {
            (WorkerState::CheckActive, WorkerAction::RunJob)
        } else {
            (WorkerState::CheckActive, WorkerAction::Spin)
        },
        WorkerState::Drain => if observed {
            (WorkerState::Drain, WorkerAction::RunJob)
        } else {
            (WorkerState::Done, WorkerAction::Exit)
        },
        WorkerState::Done => (WorkerState::Done, WorkerAction::Exit),
    }
}

/// The state a worker starts in.
pub fn worker_start() -> (state: WorkerState)
    ensures
        state == WorkerState::CheckActive,
{
    WorkerState::CheckActive
}

/// The states a worker passes through from `state`, given its observations
/// in order.
pub open spec fn worker_run(state: WorkerState, observations: Seq<bool>) -> (WorkerState, Seq<WorkerAction>)
    decreases observations.len(),
{
    if observations.len() == 0 {
        (state, Seq::empty())
    } else {
        let (next, action) = worker_transition(state, observations[0]);
        let (last, actions) = worker_run(next, observations.drop_first());
        (last, seq![action] + actions)
    }
}

/// A worker exits only from `Drain`, on a pop that found the queue empty:
/// it has seen the pool shut down and then the queue empty.
pub proof fn lemma_exit_only_when_drained(state: WorkerState, observed: bool)
    requires
        state != WorkerState::Done,
        worker_transition(state, observed).1 == WorkerAction::Exit,
    ensures
        state == WorkerState::Drain,
        !observed,
{
}

/// Once a worker has seen the pool shut down it never polls as an active
/// worker again: from `Drain` or `Done` every run stays in those states.
pub proof fn lemma_shutdown_is_final(state: WorkerState, observations: Seq<bool>)
    requires
        state == WorkerState::Drain || state == WorkerState::Done,
    ensures
        worker_run(state, observations).0 == WorkerState::Drain || worker_run(state, observations).0
            == WorkerState::Done,
    decreases observations.len(),
{
    if observations.len() > 0 {
        lemma_shutdown_is_final(worker_transition(state, observations[0]).0, observations.drop_first());
    }
}

/// After shutdown a worker runs every job left in the queue: draining a queue
/// of `jobs` jobs, it runs `jobs` jobs and then exits.
pub proof fn lemma_drain_runs_every_job(jobs: nat)
    ensures
        ({
            let observations = Seq::new(jobs + 1, |i: int| i < jobs);
            let (last, actions) = worker_run(WorkerState::Drain, observations);
            &&& last == WorkerState::Done
            &&& actions == Seq::new(jobs, |i: int| WorkerAction::RunJob).push(WorkerAction::Exit)
        }),
    decreases jobs,
{
    let observations = Seq::new(jobs + 1, |i: int| i < jobs);
    let runs = Seq::new(jobs, |i: int| WorkerAction::RunJob).push(WorkerAction::Exit);
    if jobs > 0 {
        let k = (jobs - 1) as nat;
        lemma_drain_runs_every_job(k);
        assert(observations.drop_first() =~= Seq::new(k + 1, |i: int| i < k));
        assert(observations[0]);
        let rest = worker_run(WorkerState::Drain, observations.drop_first());
        assert(rest.0 == WorkerState::Done);
        assert(rest.1 == Seq::new(k, |i: int| WorkerAction::RunJob).push(WorkerAction::Exit));
        assert(worker_run(WorkerState::Drain, observations) == (rest.0, seq![WorkerAction::RunJob] + rest.1));
        assert(seq![WorkerAction::RunJob] + rest.1 =~= runs);
    } else {
        assert(observations.drop_first() =~= Seq::<bool>::empty());
        assert(!observations[0]);
        assert(worker_run(WorkerState::Done, observations.drop_first()) == (
            WorkerState::Done,
            Seq::<WorkerAction>::empty(),
        ));
        assert(worker_run(WorkerState::Drain, observations) == (
            WorkerState::Done,
            seq![WorkerAction::Exit] + Seq::<WorkerAction>::empty(),
        ));
        assert(seq![WorkerAction::Exit] + Seq::<WorkerAction>::empty() =~= runs);
    }
}

} // verus!
