//! The life of a stage: created, running, stopping, stopped.
//!
//! A stage is started once and stopped once. Stopping is cooperative: the
//! pipeline asks, the worker notices at its next look and leaves. No event
//! takes a stage back to an earlier state, and a stopped stage stays stopped.

use vstd::prelude::*;

verus! {

/// Where a stage stands.
#[derive(Clone, Copy, Debug, PartialEq, Eq, Structural)]
pub enum StageState {
    Created,
    Running,
    Stopping,
    Stopped,
}

/// What can happen to a stage.
#[derive(Clone, Copy, Debug, PartialEq, Eq, Structural)]
pub enum StageEvent {
    /// The pipeline starts the stage.
    Start,
    /// The pipeline asks the stage to stop.
    StopRequested,
    /// The stage's worker has left its loop.
    Exited,
}

impl StageState {
    /// How far along its life the stage is.
    pub open spec fn rank(self) -> nat {
        match self {
            StageState::Created => 0,
            StageState::Running => 1,
            StageState::Stopping => 2,
            StageState::Stopped => 3,
        }
    }

    /// The state after `event`. A start moves only a created stage. A request
    /// to stop moves a running stage to stopping, and a stage that never ran
    /// straight to stopped. The worker's exit stops a stage that ran.
    pub open spec fn after(self, event: StageEvent) -> StageState {
        match (self, event) {
            (StageState::Created, StageEvent::Start) => StageState::Running,
            (StageState::Created, StageEvent::StopRequested) => StageState::Stopped,
            (StageState::Running, StageEvent::StopRequested) => StageState::Stopping,
            (StageState::Running, StageEvent::Exited) => StageState::Stopped,
            (StageState::Stopping, StageEvent::Exited) => StageState::Stopped,
            (state, _) => state,
        }
    }

    /// The state after a run of events, oldest first.
    pub open spec fn after_all(self, events: Seq<StageEvent>) -> StageState
        decreases events.len(),
    {
        if events.len() == 0 {
            self
        } else {
            self.after_all(events.drop_last()).after(events.last())
        }
    }

    /// Whether the worker's loop goes on: the run flag of the stage.
    pub open spec fn runs(self) -> bool {
        self == StageState::Running
    }

    /// The state that a new stage is in.
    pub fn new() -> (state: StageState)
        ensures
            state == StageState::Created,
    {
        StageState::Created
    }

    /// Applies `event`.
    pub fn on(self, event: StageEvent) -> (next: StageState)
        ensures
            next == self.after(event),
    {
        match self {
            StageState::Created => match event {
                StageEvent::Start => StageState::Running,
                StageEvent::StopRequested => StageState::Stopped,
                StageEvent::Exited => StageState::Created,
            },
            StageState::Running => match event {
                StageEvent::Start => StageState::Running,
                StageEvent::StopRequested => StageState::Stopping,
                StageEvent::Exited => StageState::Stopped,
            },
            StageState::Stopping => match event {
                StageEvent::Exited => StageState::Stopped,
                _ => StageState::Stopping,
            },
            StageState::Stopped => StageState::Stopped,
        }
    }

    /// Whether the worker's loop goes on.
    pub fn should_run(self) -> (run: bool)
        ensures
            run == self.runs(),
    {
        match self {
            StageState::Running => true,
            _ => false,
        }
    }
}

/// No run of events takes a stage back: its rank never falls.
pub proof fn law_never_backward(state: StageState, events: Seq<StageEvent>)
    ensures
        state.rank() <= state.after_all(events).rank(),
    decreases events.len(),
{
    if events.len() > 0 {
        law_never_backward(state, events.drop_last());
    }
}

/// A stopped stage stays stopped, whatever follows: it is not restarted.
pub proof fn law_stopped_for_good(events: Seq<StageEvent>)
    ensures
        StageState::Stopped.after_all(events) == StageState::Stopped,
{
    law_never_backward(StageState::Stopped, events);
}

/// A stage runs at most once: after it has left the running state no run of
/// events brings it back there.
pub proof fn law_runs_once(state: StageState, events: Seq<StageEvent>)
    requires
        state.rank() >= 2,
    ensures
        !state.after_all(events).runs(),
{
    law_never_backward(state, events);
}

} // verus!
