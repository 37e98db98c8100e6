use tessera::environment::EnvValue;
use tessera::proxy::{
    event_sink_target, exit_code_from_status, semantic_events_for_output, EventFdError,
    EventSinkTarget, ProxyExitCode,
};
use tessera::shell_integration::event::ShellSemanticEvent;
use tessera::shell_integration::osc133::Osc133Parser;

fn value(text: &str) -> EnvValue {
    EnvValue::Value(text.to_string())
}

#[test]
fn event_sink_defaults_to_stderr() {
    assert_eq!(event_sink_target(&EnvValue::NotPresent), Ok(EventSinkTarget::DebugStderr));
}

#[test]
fn event_sink_uses_the_given_descriptor() {
    assert_eq!(event_sink_target(&value("3")), Ok(EventSinkTarget::Protocol(3)));
    assert_eq!(event_sink_target(&value("0")), Ok(EventSinkTarget::Protocol(0)));
    assert_eq!(event_sink_target(&value("+42")), Ok(EventSinkTarget::Protocol(42)));
    assert_eq!(
        event_sink_target(&value("2147483647")),
        Ok(EventSinkTarget::Protocol(i32::MAX))
    );
}

#[test]
fn event_sink_rejects_each_bad_setting() {
    assert_eq!(event_sink_target(&EnvValue::NotUnicode), Err(EventFdError::NotUnicode));
    assert_eq!(event_sink_target(&value("")), Err(EventFdError::NotADescriptor));
    assert_eq!(event_sink_target(&value("fd3")), Err(EventFdError::NotADescriptor));
    assert_eq!(event_sink_target(&value(" 3")), Err(EventFdError::NotADescriptor));
    assert_eq!(event_sink_target(&value("2147483648")), Err(EventFdError::NotADescriptor));
    assert_eq!(event_sink_target(&value("-")), Err(EventFdError::NotADescriptor));
    assert_eq!(event_sink_target(&value("-1")), Err(EventFdError::Negative));
    assert_eq!(event_sink_target(&value("1")), Err(EventFdError::Stdout));
    assert_eq!(event_sink_target(&value("+1")), Err(EventFdError::Stdout));
}

#[test]
fn event_sink_parses_like_str_parse() {
    for text in ["7", "-7", "+7", "007", "", "+", "-", "1a", "99999999999", "-2147483648"] {
        let expected = match text.parse::<i32>() {
            Err(_) => Err(EventFdError::NotADescriptor),
            Ok(fd) if fd < 0 => Err(EventFdError::Negative),
            Ok(1) => Err(EventFdError::Stdout),
            Ok(fd) => Ok(EventSinkTarget::Protocol(fd)),
        };
        assert_eq!(event_sink_target(&value(text)), expected, "{text:?}");
    }
}

#[test]
fn exit_code_reports_how_the_shell_ended() {
    assert_eq!(exit_code_from_status(Some(0), None), ProxyExitCode::Code(0));
    assert_eq!(exit_code_from_status(Some(3), Some(9)), ProxyExitCode::Code(3));
    assert_eq!(exit_code_from_status(Some(256), None), ProxyExitCode::Code(0));
    assert_eq!(exit_code_from_status(Some(-1), None), ProxyExitCode::Code(255));
    assert_eq!(exit_code_from_status(None, Some(9)), ProxyExitCode::Code(137));
    assert_eq!(exit_code_from_status(None, Some(200)), ProxyExitCode::Code(72));
    assert_eq!(exit_code_from_status(None, Some(i32::MAX)), ProxyExitCode::Code(127));
    assert_eq!(exit_code_from_status(None, None), ProxyExitCode::Failure);
}

#[test]
fn output_chunks_become_semantic_events() {
    let mut parser = Osc133Parser::with_extended_markers();

    assert_eq!(
        semantic_events_for_output(&mut parser, b"$ \x1b]133;C;cmdline_url=ls\x07out\x1b]133;D"),
        vec![ShellSemanticEvent::CommandStart { command: Some("ls".to_string()) }]
    );
    assert_eq!(
        semantic_events_for_output(&mut parser, b";0\x07\x1b]133;A\x07"),
        vec![
            ShellSemanticEvent::CommandFinished { status: Some(0) },
            ShellSemanticEvent::PromptStart,
        ]
    );
    assert!(semantic_events_for_output(&mut parser, b"plain").is_empty());
}
