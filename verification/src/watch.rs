//! Debounced watch events and the orchestrator state machine that drives
//! the tail. The control loop itself runs outside the library: it hands
//! each event in and performs the action handed back.

use vstd::prelude::*;
use crate::bytes::bytes_eq;

verus! {

/// A debounced filesystem notification, with paths as plain bytes.
pub enum WatchEvent {
    /// Content was appended to or modified at the path.
    Appended(Vec<u8>),
    /// A file appeared at the path.
    Created(Vec<u8>),
    /// The path's attributes changed.
    AttributeChanged(Vec<u8>),
    /// The file at the path was removed.
    Removed(Vec<u8>),
    /// The file moved from the first path to the second.
    Renamed(Vec<u8>, Vec<u8>),
    /// The watch subsystem asks for a full rescan.
    RescanRequested,
    /// The watch subsystem failed; the bytes describe the cause.
    WatchError(Vec<u8>),
}

/// The orchestrator's two states: consuming events, or shut down.
#[derive(Clone, Copy, PartialEq, Eq, Structural, Debug)]
pub enum OrchestratorState {
    Running,
    Terminating,
}

/// What the control loop must do with one event.
#[derive(Clone, Copy, PartialEq, Eq, Structural, Debug)]
pub enum Action {
    /// Re-read the tailed file: new content may be available.
    Drain,
    /// Nothing: the event does not concern the tailed file.
    Ignore,
    /// Stop consuming events and wait for the forwarder to finish.
    Shutdown,
}

/// The event reports content appended to or modified at the tailed path.
pub open spec fn is_append_for(e: WatchEvent, target: Seq<u8>) -> bool {
    match e {
        WatchEvent::Appended(p) => p@ == target,
        _ => false,
    }
}

/// The event ends the pipeline: the tailed file was removed or renamed
/// away, or the watch subsystem failed.
pub open spec fn is_terminal_for(e: WatchEvent, target: Seq<u8>) -> bool {
    match e {
        WatchEvent::Removed(p) => p@ == target,
        WatchEvent::Renamed(from, _) => from@ == target,
        WatchEvent::WatchError(_) => true,
        _ => false,
    }
}

/// The state after one event: a terminal event for the tailed path moves a
/// running orchestrator to `Terminating`; `Terminating` never leaves.
pub open spec fn step_state(
    state: OrchestratorState,
    target: Seq<u8>,
    e: WatchEvent,
) -> OrchestratorState {
    match state {
        OrchestratorState::Terminating => OrchestratorState::Terminating,
        OrchestratorState::Running => if is_terminal_for(e, target) {
            OrchestratorState::Terminating
        } else {
            OrchestratorState::Running
        },
    }
}

/// The action one event demands: while running, a terminal event shuts the
/// loop down, an append for the tailed path is drained, and every other
/// event is ignored without side effects; once terminated, every event is
/// ignored.
pub open spec fn step_action(state: OrchestratorState, target: Seq<u8>, e: WatchEvent) -> Action {
    match state {
        OrchestratorState::Terminating => Action::Ignore,
        OrchestratorState::Running => if is_terminal_for(e, target) {
            Action::Shutdown
        } else if is_append_for(e, target) {
            Action::Drain
        } else {
            Action::Ignore
        },
    }
}

/// The control loop's state: the tailed path and whether events are still
/// consumed.
pub struct Orchestrator {
    pub state: OrchestratorState,
    pub target: Vec<u8>,
}

impl Orchestrator {
    /// A running orchestrator for the given tailed path.
    pub fn new(target: Vec<u8>) -> (o: Orchestrator)
        ensures
            o.state is Running,
            o.target@ == target@,
    {
        Orchestrator { state: OrchestratorState::Running, target }
    }

    /// Handles one debounced event, returning the action the loop must
    /// take. The tailed path never changes; the state moves exactly as
    /// `step_state` says.
    pub fn handle_event(&mut self, e: &WatchEvent) -> (a: Action)
        ensures
            final(self).target@ == old(self).target@,
            final(self).state == step_state(old(self).state, old(self).target@, *e),
            a == step_action(old(self).state, old(self).target@, *e),
    {
        match self.state {
            OrchestratorState::Terminating => Action::Ignore,
            OrchestratorState::Running => match e {
                WatchEvent::Appended(p) => {
                    if bytes_eq(p, &self.target) {
                        Action::Drain
                    } else {
                        Action::Ignore
                    }
                },
                WatchEvent::Removed(p) => {
                    if bytes_eq(p, &self.target) {
                        self.state = OrchestratorState::Terminating;
                        Action::Shutdown
                    } else {
                        Action::Ignore
                    }
                },
                WatchEvent::Renamed(from, _) => {
                    if bytes_eq(from, &self.target) {
                        self.state = OrchestratorState::Terminating;
                        Action::Shutdown
                    } else {
                        Action::Ignore
                    }
                },
                WatchEvent::WatchError(_) => {
                    self.state = OrchestratorState::Terminating;
                    Action::Shutdown
                },
                _ => Action::Ignore,
            },
        }
    }
}

/// The state after a whole run of events, first event first.
pub open spec fn state_after(
    state: OrchestratorState,
    target: Seq<u8>,
    events: Seq<WatchEvent>,
) -> OrchestratorState
    decreases events.len(),
{
    if events.len() == 0 {
        state
    } else {
        state_after(step_state(state, target, events[0]), target, events.drop_first())
    }
}

/// The actions a whole run of events demands, in order.
pub open spec fn actions_after(
    state: OrchestratorState,
    target: Seq<u8>,
    events: Seq<WatchEvent>,
) -> Seq<Action>
    decreases events.len(),
{
    if events.len() == 0 {
        Seq::empty()
    } else {
        seq![step_action(state, target, events[0])] + actions_after(
            step_state(state, target, events[0]),
            target,
            events.drop_first(),
        )
    }
}

/// `Terminating` absorbs: once the orchestrator has shut down, any run of
/// further events leaves it terminated and every one of them is ignored.
pub proof fn lemma_terminating_absorbs(target: Seq<u8>, events: Seq<WatchEvent>)
    ensures
        state_after(OrchestratorState::Terminating, target, events) is Terminating,
        actions_after(OrchestratorState::Terminating, target, events).len() == events.len(),
        forall|j: int|
            0 <= j < events.len() ==> actions_after(OrchestratorState::Terminating, target, events)[j]
                == Action::Ignore,
    decreases events.len(),
{
    if events.len() > 0 {
        lemma_terminating_absorbs(target, events.drop_first());
        let acts = actions_after(OrchestratorState::Terminating, target, events);
        let rest = actions_after(OrchestratorState::Terminating, target, events.drop_first());
        assert forall|j: int| 0 <= j < events.len() implies acts[j] == Action::Ignore by {
            if j > 0 {
                assert(acts[j] == rest[j - 1]);
            }
        }
    }
}

/// Removing or renaming the tailed file, or a watch failure, shuts the
/// loop down: after a run of events that holds such an event, the
/// orchestrator is terminated and every later event is ignored.
pub proof fn lemma_terminal_event_shuts_down(target: Seq<u8>, events: Seq<WatchEvent>, i: int)
    requires
        0 <= i < events.len(),
        is_terminal_for(events[i], target),
    ensures
        state_after(OrchestratorState::Running, target, events) is Terminating,
        actions_after(OrchestratorState::Running, target, events).len() == events.len(),
        forall|j: int|
            i < j < events.len() ==> actions_after(OrchestratorState::Running, target, events)[j]
                == Action::Ignore,
    decreases events.len(),
{
    let s1 = step_state(OrchestratorState::Running, target, events[0]);
    let acts = actions_after(OrchestratorState::Running, target, events);
    let rest_acts = actions_after(s1, target, events.drop_first());
    assert(acts.len() == 1 + rest_acts.len());
    if s1 is Terminating {
        lemma_terminating_absorbs(target, events.drop_first());
        assert forall|j: int| i < j < events.len() implies acts[j] == Action::Ignore by {
            if j > 0 {
                assert(acts[j] == rest_acts[j - 1]);
            }
        }
    } else {
        assert(i > 0);
        assert(events.drop_first()[i - 1] == events[i]);
        lemma_terminal_event_shuts_down(target, events.drop_first(), i - 1);
        assert forall|j: int| i < j < events.len() implies acts[j] == Action::Ignore by {
            assert(acts[j] == rest_acts[j - 1]);
        }
    }
}

} // verus!
