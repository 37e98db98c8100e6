//! The command lifecycle of a terminal session, driven by semantic events.

use vstd::prelude::*;
use crate::shell_integration::event::ShellSemanticEvent;

verus! {

/// Where the shell is in its prompt/command cycle.
#[derive(Debug, Clone, Copy, PartialEq, Eq, Structural)]
pub enum CommandLifecycleState {
    Idle,
    Prompt,
    Input,
    Running,
    Finished,
}

/// The lifecycle state of a session, its last exit status, and how many
/// commands have finished.
#[derive(Debug, Clone, PartialEq, Eq, Structural)]
pub struct TerminalSessionSnapshot {
    pub state: CommandLifecycleState,
    pub last_exit_status: Option<i32>,
    pub command_count: u64,
}

impl Default for TerminalSessionSnapshot {
    /// An idle session with no finished command.
    fn default() -> (snapshot: Self)
        ensures
            snapshot == initial_snapshot(),
    {
        TerminalSessionSnapshot {
            state: CommandLifecycleState::Idle,
            last_exit_status: None,
            command_count: 0,
        }
    }
}

/// An idle session with no finished command.
pub open spec fn initial_snapshot() -> TerminalSessionSnapshot {
    TerminalSessionSnapshot {
        state: CommandLifecycleState::Idle,
        last_exit_status: None,
        command_count: 0,
    }
}

/// The snapshot after one event: prompt start, prompt end and command start
/// move to `Prompt`, `Input` and `Running`; command finished moves to
/// `Finished`, records the status and counts the command; output events
/// change nothing.
pub open spec fn next_snapshot(s: TerminalSessionSnapshot, event: ShellSemanticEvent) -> TerminalSessionSnapshot {
    match event {
        ShellSemanticEvent::PromptStart => TerminalSessionSnapshot {
            state: CommandLifecycleState::Prompt,
            ..s
        },
        ShellSemanticEvent::PromptEnd => TerminalSessionSnapshot {
            state: CommandLifecycleState::Input,
            ..s
        },
        ShellSemanticEvent::CommandStart { .. } => TerminalSessionSnapshot {
            state: CommandLifecycleState::Running,
            ..s
        },
        ShellSemanticEvent::CommandFinished { status } => TerminalSessionSnapshot {
            state: CommandLifecycleState::Finished,
            last_exit_status: status,
            command_count: (s.command_count + 1) as u64,
        },
        ShellSemanticEvent::CommandOutputChunk { .. } => s,
        ShellSemanticEvent::CommandOutputTruncated { .. } => s,
    }
}

/// Whether applying `event` to `s` stays within the counter's range.
pub open spec fn can_apply(s: TerminalSessionSnapshot, event: ShellSemanticEvent) -> bool {
    event is CommandFinished ==> s.command_count < u64::MAX
}

/// Applies one semantic event to a snapshot.
pub fn apply_semantic_event(snapshot: &mut TerminalSessionSnapshot, event: &ShellSemanticEvent)
    requires
        can_apply(*old(snapshot), *event),
    ensures
        *final(snapshot) == next_snapshot(*old(snapshot), *event),
{
    match event {
        ShellSemanticEvent::PromptStart => {
            snapshot.state = CommandLifecycleState::Prompt;
        },
        ShellSemanticEvent::PromptEnd => {
            snapshot.state = CommandLifecycleState::Input;
        },
        ShellSemanticEvent::CommandStart { .. } => {
            snapshot.state = CommandLifecycleState::Running;
        },
        ShellSemanticEvent::CommandFinished { status } => {
            snapshot.state = CommandLifecycleState::Finished;
            snapshot.last_exit_status = *status;
            snapshot.command_count = snapshot.command_count + 1;
        },
        ShellSemanticEvent::CommandOutputChunk { .. } => {},
        ShellSemanticEvent::CommandOutputTruncated { .. } => {},
    }
}

/// Holds a snapshot and applies events to it.
#[derive(Debug, Clone, PartialEq, Eq)]
pub struct CommandStateTracker {
    snapshot: TerminalSessionSnapshot,
}

impl Default for CommandStateTracker {
    /// A tracker holding the initial snapshot.
    fn default() -> (tracker: Self)
        ensures
            tracker@ == initial_snapshot(),
    {
        CommandStateTracker { snapshot: TerminalSessionSnapshot::default() }
    }
}

impl View for CommandStateTracker {
    type V = TerminalSessionSnapshot;

    closed spec fn view(&self) -> TerminalSessionSnapshot {
        self.snapshot
    }
}

impl CommandStateTracker {
    /// The current snapshot.
    pub fn snapshot(&self) -> (snapshot: TerminalSessionSnapshot)
        ensures
            snapshot == self@,
    {
        TerminalSessionSnapshot {
            state: self.snapshot.state,
            last_exit_status: self.snapshot.last_exit_status,
            command_count: self.snapshot.command_count,
        }
    }

    /// Applies an event and returns the new snapshot.
    pub fn apply_semantic_event(&mut self, event: &ShellSemanticEvent) -> (snapshot: TerminalSessionSnapshot)
        requires
            can_apply(old(self)@, *event),
        ensures
            final(self)@ == next_snapshot(old(self)@, *event),
            snapshot == final(self)@,
    {
        apply_semantic_event(&mut self.snapshot, event);
        self.snapshot()
    }
}

// ---------------------------------------------------------------------------
// Laws over event sequences

/// The snapshot after a sequence of events, applied in order.
pub open spec fn apply_events(s: TerminalSessionSnapshot, events: Seq<ShellSemanticEvent>) -> TerminalSessionSnapshot
    decreases events.len(),
{
    if events.len() == 0 {
        s
    } else {
        next_snapshot(apply_events(s, events.drop_last()), events.last())
    }
}

/// How many command-finished events a sequence holds.
pub open spec fn finished_count(events: Seq<ShellSemanticEvent>) -> nat
    decreases events.len(),
{
    if events.len() == 0 {
        0
    } else {
        finished_count(events.drop_last()) + if events.last() is CommandFinished {
            1nat
        } else {
            0nat
        }
    }
}

/// The counter counts finished commands: after any sequence of events the
/// command count has grown by exactly the number of command-finished events
/// in it (as long as it stays within `u64`), and output events never change
/// the snapshot.
pub proof fn lemma_command_count_counts_finished(
    s: TerminalSessionSnapshot,
    events: Seq<ShellSemanticEvent>,
)
    requires
        s.command_count + finished_count(events) <= u64::MAX,
    ensures
        apply_events(s, events).command_count == s.command_count + finished_count(events),
    decreases events.len(),
{
    if events.len() > 0 {
        lemma_command_count_counts_finished(s, events.drop_last());
    }
}

/// The state after a non-empty sequence of lifecycle events is the one its
/// last event leads to, whatever came before; a command-finished event
/// always records its own status.
pub proof fn lemma_last_event_decides_state(
    s: TerminalSessionSnapshot,
    events: Seq<ShellSemanticEvent>,
)
    requires
        events.len() > 0,
        !(events.last() is CommandOutputChunk),
        !(events.last() is CommandOutputTruncated),
    ensures
        apply_events(s, events).state == match events.last() {
            ShellSemanticEvent::PromptStart => CommandLifecycleState::Prompt,
            ShellSemanticEvent::PromptEnd => CommandLifecycleState::Input,
            ShellSemanticEvent::CommandStart { .. } => CommandLifecycleState::Running,
            _ => CommandLifecycleState::Finished,
        },
        events.last() matches ShellSemanticEvent::CommandFinished { status } ==> apply_events(
            s,
            events,
        ).last_exit_status == status,
{
}

} // verus!
