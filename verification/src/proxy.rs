//! The decisions of the PTY proxy: where its semantic events go, which
//! events a chunk of terminal output carries, and the exit code it reports
//! for the shell it ran.

use vstd::prelude::*;
use crate::environment::EnvValue;
use crate::shell_integration::event::{
    ShellSemanticEvent, SemanticEventModel, lemma_event_from_osc133_view, semantic_from_osc133,
};
use crate::shell_integration::osc133::{Osc133Event, Osc133EventModel, Osc133Parser, scan_events};
use crate::text::{parse_i32, parse_i32_spec};
use vstd::utf8::encode_utf8;

verus! {

/// The file descriptor number of standard output.
pub const STDOUT_FD: i32 = 1;

/// Where the proxy writes its semantic events.
#[derive(Debug, Clone, Copy, PartialEq, Eq, Structural)]
pub enum EventSinkTarget {
    /// One JSON object per line on this file descriptor.
    Protocol(i32),
    /// A debug rendering on standard error.
    DebugStderr,
}

/// Why `TESSERA_EVENT_FD` cannot be used.
#[derive(Debug, Clone, Copy, PartialEq, Eq, Structural)]
pub enum EventFdError {
    NotUnicode,
    NotADescriptor,
    Negative,
    Stdout,
}

/// The event sink that the setting `TESSERA_EVENT_FD` selects: none set
/// means standard error; otherwise the value must be a decimal `i32`
/// (as `str::parse` reads one) that is neither negative nor standard output.
pub open spec fn event_sink_for_setting(setting: EnvValue) -> Result<EventSinkTarget, EventFdError> {
    match setting {
        EnvValue::NotPresent => Ok(EventSinkTarget::DebugStderr),
        EnvValue::NotUnicode => Err(EventFdError::NotUnicode),
        EnvValue::Value(v) => match parse_i32_spec(encode_utf8(v@)) {
            None => Err(EventFdError::NotADescriptor),
            Some(fd) => if fd < 0 {
                Err(EventFdError::Negative)
            } else if fd == STDOUT_FD {
                Err(EventFdError::Stdout)
            } else {
                Ok(EventSinkTarget::Protocol(fd))
            },
        },
    }
}

/// Chooses the event sink from the value of `TESSERA_EVENT_FD`.
pub fn event_sink_target(setting: &EnvValue) -> (target: Result<EventSinkTarget, EventFdError>)
    ensures
        target == event_sink_for_setting(*setting),
{
    match setting {
        EnvValue::NotPresent => Ok(EventSinkTarget::DebugStderr),
        EnvValue::NotUnicode => Err(EventFdError::NotUnicode),
        EnvValue::Value(value) => {
            let bytes = value.as_str().as_bytes();
            match parse_i32(bytes) {
                None => Err(EventFdError::NotADescriptor),
                Some(fd) => {
                    if fd < 0 {
                        Err(EventFdError::Negative)
                    } else if fd == STDOUT_FD {
                        Err(EventFdError::Stdout)
                    } else {
                        Ok(EventSinkTarget::Protocol(fd))
                    }
                },
            }
        },
    }
}

/// The views of a sequence of semantic events.
pub open spec fn semantic_views(events: Seq<ShellSemanticEvent>) -> Seq<SemanticEventModel> {
    events.map_values(|e: ShellSemanticEvent| e@)
}

/// The semantic events that OSC 133 events stand for, in order.
pub open spec fn semantic_events(events: Seq<Osc133EventModel>) -> Seq<SemanticEventModel> {
    events.map_values(|e: Osc133EventModel| semantic_from_osc133(e))
}

/// Feeds one chunk of terminal output to the parser and returns the
/// semantic events it completes, in order.
pub fn semantic_events_for_output(parser: &mut Osc133Parser, output: &[u8]) -> (events: Vec<ShellSemanticEvent>)
    ensures
        semantic_views(events@) == semantic_events(
            scan_events(old(parser).buffered()@ + output@, old(parser).extended()),
        ),
        final(parser).buffered()@ == crate::shell_integration::osc133::scan(
            old(parser).buffered()@ + output@,
            old(parser).extended(),
        ).1,
        final(parser).extended() == old(parser).extended(),
{
    let osc_events = parser.push(output);
    let ghost models = osc_events@.map_values(|e: Osc133Event| e@);
    let mut events: Vec<ShellSemanticEvent> = Vec::new();
    for event in it: osc_events
        invariant
            it.seq().map_values(|e: Osc133Event| e@) == models,
            events@.len() == it.index(),
            forall|k: int| 0 <= k < it.index() ==> (#[trigger] events@[k])@ == semantic_from_osc133(models[k]),
    {
        let ghost k = it.index() as int;
        proof {
            lemma_event_from_osc133_view(event);
            assert(models[k] == it.seq()[k]@);
        }
        events.push(ShellSemanticEvent::from(event));
    }
    assert(semantic_views(events@) =~= semantic_events(models));
    events
}

/// What the proxy exits with.
#[derive(Debug, Clone, Copy, PartialEq, Eq, Structural)]
pub enum ProxyExitCode {
    /// This exit code.
    Code(u8),
    /// The platform's failure code.
    Failure,
}

/// The proxy's exit code for a shell that exited with `code` or was killed
/// by `signal`: the low byte of the code; else the low byte of 128 plus
/// the signal; else failure.
pub open spec fn exit_code_for(code: Option<i32>, signal: Option<i32>) -> ProxyExitCode {
    match code {
        Some(c) => ProxyExitCode::Code(c as u8),
        None => match signal {
            Some(s) => ProxyExitCode::Code((128 + s) as u8),
            None => ProxyExitCode::Failure,
        },
    }
}

/// The exit code that reports how the shell ended.
pub fn exit_code_from_status(code: Option<i32>, signal: Option<i32>) -> (exit: ProxyExitCode)
    ensures
        exit == exit_code_for(code, signal),
{
    match code {
        Some(c) => ProxyExitCode::Code(c as u8),
        None => match signal {
            Some(s) => {
                let sum: i64 = 128i64 + s as i64;
                ProxyExitCode::Code(sum as u8)
            },
            None => ProxyExitCode::Failure,
        },
    }
}

} // verus!
