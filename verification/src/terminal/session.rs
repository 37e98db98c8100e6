//! The data model behind a terminal session: its identity, the choice of
//! backend, the environment its child process gets, and the command state
//! that the semantic event stream drives.

use vstd::prelude::*;
use crate::environment::EnvValue;
use crate::shell_integration::event::ShellSemanticEvent;
use crate::text::str_equals;
use super::command_block::{
    CommandBlock, CommandBlockTracker, CommandBlockTrackerModel, block_models, extend_bytes,
    tracker_current_block, tracker_finished, tracker_invariant, tracker_started, start_step,
    finish_step, lemma_tracker_operations_keep_invariant, lemma_tracker_finish_keeps_invariant,
};
use super::command_input::option_chars;
use super::command_state::{TerminalSessionSnapshot, can_apply, initial_snapshot, next_snapshot};
use super::timestamp::Timestamp;

verus! {

/// Identifies a terminal session.
#[derive(Debug, Clone, Copy, PartialEq, Eq, Hash, Structural)]
pub struct TerminalSessionId(u64);

impl View for TerminalSessionId {
    type V = u64;

    closed spec fn view(&self) -> u64 {
        self.0
    }
}

impl TerminalSessionId {
    /// The session id with the given number.
    pub fn from_u64(value: u64) -> (id: Self)
        ensures
            id@ == value,
    {
        TerminalSessionId(value)
    }

    /// The number of this session id.
    pub fn as_u64(self) -> (value: u64)
        ensures
            value == self@,
    {
        self.0
    }
}

/// How a session's shell is run.
#[derive(Debug, Clone, Copy, PartialEq, Eq, Structural)]
pub enum TerminalBackend {
    DirectShell,
    PtyProxy,
}

/// Why the backend setting could not be honoured as written.
#[derive(Debug, Clone, Copy, PartialEq, Eq, Structural)]
pub enum BackendWarning {
    Unsupported,
    NotUnicode,
}

/// The backend that the setting `TESSERA_TERMINAL_BACKEND` selects, and the
/// warning to report: `proxy` selects the PTY proxy; an empty value,
/// `direct`, or no setting selects the direct shell; any other value, or
/// one that is not Unicode, falls back to the direct shell with a warning.
pub open spec fn backend_for_setting(setting: EnvValue) -> (TerminalBackend, Option<BackendWarning>) {
    match setting {
        EnvValue::Value(v) => if v@ == "proxy"@ {
            (TerminalBackend::PtyProxy, None)
        } else if v@.len() == 0 || v@ == "direct"@ {
            (TerminalBackend::DirectShell, None)
        } else {
            (TerminalBackend::DirectShell, Some(BackendWarning::Unsupported))
        },
        EnvValue::NotPresent => (TerminalBackend::DirectShell, None),
        EnvValue::NotUnicode => (TerminalBackend::DirectShell, Some(BackendWarning::NotUnicode)),
    }
}

impl TerminalBackend {
    /// The backend selected by the value of `TESSERA_TERMINAL_BACKEND`.
    pub fn from_setting(setting: &EnvValue) -> (choice: (TerminalBackend, Option<BackendWarning>))
        ensures
            choice == backend_for_setting(*setting),
    {
        match setting {
            EnvValue::Value(value) => {
                if str_equals(value.as_str(), "proxy") {
                    (TerminalBackend::PtyProxy, None)
                } else if value.as_str().is_empty() || str_equals(value.as_str(), "direct") {
                    (TerminalBackend::DirectShell, None)
                } else {
                    (TerminalBackend::DirectShell, Some(BackendWarning::Unsupported))
                }
            },
            EnvValue::NotPresent => (TerminalBackend::DirectShell, None),
            EnvValue::NotUnicode => (TerminalBackend::DirectShell, Some(BackendWarning::NotUnicode)),
        }
    }
}

/// The mathematical value of a [`TerminalSessionState`].
pub ghost struct TerminalSessionStateModel {
    pub snapshot: TerminalSessionSnapshot,
    pub blocks: CommandBlockTrackerModel,
}

/// The command state of a session: its lifecycle snapshot and its command
/// blocks, both driven by the semantic events the shell reports.
#[derive(Debug, Clone, PartialEq, Eq)]
pub struct TerminalSessionState {
    snapshot: TerminalSessionSnapshot,
    blocks: CommandBlockTracker,
}

impl View for TerminalSessionState {
    type V = TerminalSessionStateModel;

    closed spec fn view(&self) -> TerminalSessionStateModel {
        TerminalSessionStateModel { snapshot: self.snapshot, blocks: self.blocks@ }
    }
}

/// The session state is well formed when its blocks keep the tracker
/// invariant.
pub open spec fn session_state_invariant(m: TerminalSessionStateModel) -> bool {
    tracker_invariant(m.blocks)
}

/// The session state after one event at time `now`: the snapshot moves as
/// the lifecycle says; a command start opens a block for its command, a
/// command finish closes the current block with its status; prompt and
/// output events leave the blocks as they are.
pub open spec fn session_after_event(
    m: TerminalSessionStateModel,
    event: ShellSemanticEvent,
    now: int,
) -> TerminalSessionStateModel {
    TerminalSessionStateModel {
        snapshot: next_snapshot(m.snapshot, event),
        blocks: match event {
            ShellSemanticEvent::CommandStart { command } => tracker_started(
                m.blocks,
                option_chars(command),
                now,
            ),
            ShellSemanticEvent::CommandFinished { status } => tracker_finished(m.blocks, status, now),
            _ => m.blocks,
        },
    }
}

/// What one event does to a session: the snapshot moves exactly as
/// `apply_semantic_event` moves it; a command start changes the blocks as
/// `start_command_block` does and a command finish as `finish_command_block`
/// does, both at the event's time; prompt and output events leave the blocks,
/// and so the current block, as they were. The invariant is kept whenever the
/// counters leave room.
pub proof fn lemma_session_event_effects(m: TerminalSessionStateModel, event: ShellSemanticEvent, now: int)
    requires
        session_state_invariant(m),
    ensures
        session_after_event(m, event, now).snapshot == next_snapshot(m.snapshot, event),
        event matches ShellSemanticEvent::CommandStart { command } ==> ({
            let step = start_step(
                m.blocks.session_id,
                m.blocks.blocks,
                m.blocks.current,
                m.blocks.next_block_id,
                option_chars(command),
                now,
            );
            let after = session_after_event(m, event, now).blocks;
            after.blocks == step.0 && after.current == step.1 && after.next_block_id == step.2
        }),
        event matches ShellSemanticEvent::CommandFinished { status } ==> ({
            let step = finish_step(m.blocks.blocks, m.blocks.current, status, now);
            let after = session_after_event(m, event, now).blocks;
            after.blocks == step.0 && after.current == step.1
                && after.next_block_id == m.blocks.next_block_id
        }),
        !(event is CommandStart) && !(event is CommandFinished) ==> session_after_event(m, event, now).blocks
            == m.blocks && tracker_current_block(session_after_event(m, event, now).blocks)
            == tracker_current_block(m.blocks),
        session_can_handle(m, event) ==> session_state_invariant(session_after_event(m, event, now)),
{
    match event {
        ShellSemanticEvent::CommandStart { command } => {
            if m.blocks.next_block_id < u64::MAX {
                lemma_tracker_operations_keep_invariant(m.blocks, option_chars(command), None, Seq::empty(), now);
            }
        },
        ShellSemanticEvent::CommandFinished { status } => {
            lemma_tracker_finish_keeps_invariant(m.blocks, status, now);
        },
        _ => {},
    }
}

/// Whether the session's counters leave room for `event`.
pub open spec fn session_can_handle(m: TerminalSessionStateModel, event: ShellSemanticEvent) -> bool {
    &&& can_apply(m.snapshot, event)
    &&& (event is CommandStart ==> m.blocks.next_block_id < u64::MAX)
}

fn copy_bytes(bytes: &Vec<u8>) -> (copy: Vec<u8>)
    ensures
        copy@ == bytes@,
{
    let mut copy: Vec<u8> = Vec::new();
    extend_bytes(&mut copy, bytes.as_slice());
    copy
}

fn copy_command(command: &Option<String>) -> (copy: Option<String>)
    ensures
        option_chars(copy) == option_chars(*command),
{
    match command {
        Some(c) => Some(c.clone()),
        None => None,
    }
}

fn copy_block(block: &CommandBlock) -> (copy: CommandBlock)
    ensures
        copy@ == block@,
{
    CommandBlock {
        id: block.id,
        session_id: block.session_id,
        command: copy_command(&block.command),
        started_at: block.started_at,
        ended_at: block.ended_at,
        exit_status: block.exit_status,
        output_bytes: copy_bytes(&block.output_bytes),
        output_truncated: block.output_truncated,
    }
}

impl TerminalSessionState {
    /// The state of a new session: idle, with no block.
    pub fn new(session_id: TerminalSessionId) -> (state: Self)
        ensures
            state@.snapshot == initial_snapshot(),
            state@.blocks == (CommandBlockTrackerModel {
                session_id: session_id@,
                blocks: Seq::empty(),
                current: None,
                next_block_id: 1,
            }),
            session_state_invariant(state@),
    {
        TerminalSessionState {
            snapshot: TerminalSessionSnapshot::default(),
            blocks: CommandBlockTracker::new(session_id),
        }
    }

    /// Applies one semantic event reported at time `now`.
    pub fn handle_semantic_event(&mut self, event: &ShellSemanticEvent, now: Timestamp)
        requires
            session_state_invariant(old(self)@),
            session_can_handle(old(self)@, *event),
        ensures
            final(self)@ == session_after_event(old(self)@, *event, now@),
            session_state_invariant(final(self)@),
    {
        super::command_state::apply_semantic_event(&mut self.snapshot, event);
        match event {
            ShellSemanticEvent::CommandStart { command } => {
                self.blocks.command_started(copy_command(command), now);
            },
            ShellSemanticEvent::CommandFinished { status } => {
                self.blocks.command_finished(*status, now);
            },
            _ => {},
        }
    }

    /// The lifecycle snapshot.
    pub fn snapshot(&self) -> (snapshot: TerminalSessionSnapshot)
        ensures
            snapshot == self@.snapshot,
    {
        TerminalSessionSnapshot {
            state: self.snapshot.state,
            last_exit_status: self.snapshot.last_exit_status,
            command_count: self.snapshot.command_count,
        }
    }

    /// How many blocks the session has opened.
    pub fn block_count(&self) -> (count: usize)
        ensures
            count == self@.blocks.blocks.len(),
    {
        self.blocks.blocks().len()
    }

    /// A copy of all blocks, oldest first.
    pub fn blocks_snapshot(&self) -> (blocks: Vec<CommandBlock>)
        ensures
            block_models(blocks@) == self@.blocks.blocks,
    {
        let source = self.blocks.blocks();
        let mut blocks: Vec<CommandBlock> = Vec::new();
        for i in 0..source.len()
            invariant
                block_models(source@) == self@.blocks.blocks,
                blocks@.len() == i,
                forall|k: int| 0 <= k < i ==> (#[trigger] blocks@[k])@ == source@[k]@,
        {
            blocks.push(copy_block(&source[i]));
        }
        assert(block_models(blocks@) =~= block_models(source@));
        blocks
    }

    /// A copy of the block of the running command, if any.
    pub fn current_block(&self) -> (block: Option<CommandBlock>)
        ensures
            match block {
                Some(b) => tracker_current_block(self@.blocks) == Some(b@),
                None => tracker_current_block(self@.blocks) is None,
            },
    {
        match self.blocks.current_block() {
            Some(b) => Some(copy_block(b)),
            None => None,
        }
    }
}

} // verus!
