//! The semantic events that the PTY proxy reports, one JSON object per line.
//! Serialising them is done where the events are written; this module holds
//! the events themselves and the base64 payload of captured output.

use vstd::prelude::*;
use vstd::std_specs::convert::FromSpecImpl;
use super::osc133::{Osc133Event, Osc133EventModel, option_string_view};

pub use super::base64::{Base64DecodeError, Base64DecodeFailure, decode_base64};
use super::base64::{base64_encode_chars, encode_base64};

verus! {

/// A shell lifecycle event, as carried over the proxy's event channel.
#[derive(Debug, Clone, PartialEq, Eq)]
pub enum ShellSemanticEvent {
    PromptStart,
    PromptEnd,
    CommandStart { command: Option<String> },
    CommandFinished { status: Option<i32> },
    CommandOutputChunk { bytes_base64: String },
    CommandOutputTruncated { limit_bytes: u64 },
}

/// The mathematical value of a [`ShellSemanticEvent`].
pub ghost enum SemanticEventModel {
    PromptStart,
    PromptEnd,
    CommandStart { command: Option<Seq<char>> },
    CommandFinished { status: Option<i32> },
    CommandOutputChunk { bytes_base64: Seq<char> },
    CommandOutputTruncated { limit_bytes: u64 },
}

impl View for ShellSemanticEvent {
    type V = SemanticEventModel;

    open spec fn view(&self) -> SemanticEventModel {
        match self {
            ShellSemanticEvent::PromptStart => SemanticEventModel::PromptStart,
            ShellSemanticEvent::PromptEnd => SemanticEventModel::PromptEnd,
            ShellSemanticEvent::CommandStart { command } => SemanticEventModel::CommandStart {
                command: option_string_view(*command),
            },
            ShellSemanticEvent::CommandFinished { status } => SemanticEventModel::CommandFinished {
                status: *status,
            },
            ShellSemanticEvent::CommandOutputChunk { bytes_base64 } =>
                SemanticEventModel::CommandOutputChunk { bytes_base64: bytes_base64@ },
            ShellSemanticEvent::CommandOutputTruncated { limit_bytes } =>
                SemanticEventModel::CommandOutputTruncated { limit_bytes: *limit_bytes },
        }
    }
}

/// The semantic event that an OSC 133 event value stands for.
pub open spec fn semantic_from_osc133(event: Osc133EventModel) -> SemanticEventModel {
    match event {
        Osc133EventModel::PromptStart => SemanticEventModel::PromptStart,
        Osc133EventModel::PromptEnd => SemanticEventModel::PromptEnd,
        Osc133EventModel::CommandStart { command } => SemanticEventModel::CommandStart { command },
        Osc133EventModel::CommandFinished { status } => SemanticEventModel::CommandFinished {
            status,
        },
    }
}

/// Converting an OSC 133 event keeps its value.
pub proof fn lemma_event_from_osc133_view(event: Osc133Event)
    ensures
        event_from_osc133(event)@ == semantic_from_osc133(event@),
{
}

impl ShellSemanticEvent {
    /// An output-chunk event carrying `bytes` in base64.
    pub fn command_output_chunk(bytes: &[u8]) -> (event: Self)
        ensures
            event matches ShellSemanticEvent::CommandOutputChunk { bytes_base64 }
                && bytes_base64@ == base64_encode_chars(bytes@),
    {
        ShellSemanticEvent::CommandOutputChunk { bytes_base64: encode_base64(bytes) }
    }
}

/// The semantic event that an OSC 133 event stands for.
pub open spec fn event_from_osc133(event: Osc133Event) -> ShellSemanticEvent {
    match event {
        Osc133Event::PromptStart => ShellSemanticEvent::PromptStart,
        Osc133Event::PromptEnd => ShellSemanticEvent::PromptEnd,
        Osc133Event::CommandStart { command } => ShellSemanticEvent::CommandStart { command },
        Osc133Event::CommandFinished { status } => ShellSemanticEvent::CommandFinished { status },
    }
}

impl From<Osc133Event> for ShellSemanticEvent {
    fn from(event: Osc133Event) -> (converted: Self) {
        match event {
            Osc133Event::PromptStart => ShellSemanticEvent::PromptStart,
            Osc133Event::PromptEnd => ShellSemanticEvent::PromptEnd,
            Osc133Event::CommandStart { command } => ShellSemanticEvent::CommandStart { command },
            Osc133Event::CommandFinished { status } => ShellSemanticEvent::CommandFinished {
                status,
            },
        }
    }
}

impl FromSpecImpl<Osc133Event> for ShellSemanticEvent {
    open spec fn obeys_from_spec() -> bool {
        true
    }

    open spec fn from_spec(v: Osc133Event) -> Self {
        event_from_osc133(v)
    }
}

} // verus!
