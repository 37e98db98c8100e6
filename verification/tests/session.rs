use tessera::environment::EnvValue;
use tessera::shell_integration::event::ShellSemanticEvent;
use tessera::terminal::session::{BackendWarning, TerminalBackend, TerminalSessionState};
use tessera::terminal::{CommandLifecycleState, TerminalSessionId, TerminalSessionSnapshot, Timestamp};

fn setting(text: &str) -> EnvValue {
    EnvValue::Value(text.to_string())
}

#[test]
fn backend_defaults_to_direct_shell() {
    assert_eq!(
        TerminalBackend::from_setting(&EnvValue::NotPresent),
        (TerminalBackend::DirectShell, None)
    );
    assert_eq!(TerminalBackend::from_setting(&setting("")), (TerminalBackend::DirectShell, None));
    assert_eq!(
        TerminalBackend::from_setting(&setting("direct")),
        (TerminalBackend::DirectShell, None)
    );
}

#[test]
fn backend_proxy_is_opt_in() {
    assert_eq!(TerminalBackend::from_setting(&setting("proxy")), (TerminalBackend::PtyProxy, None));
}

#[test]
fn backend_warns_on_unusable_settings() {
    assert_eq!(
        TerminalBackend::from_setting(&setting("Proxy")),
        (TerminalBackend::DirectShell, Some(BackendWarning::Unsupported))
    );
    assert_eq!(
        TerminalBackend::from_setting(&setting(" proxy")),
        (TerminalBackend::DirectShell, Some(BackendWarning::Unsupported))
    );
    assert_eq!(
        TerminalBackend::from_setting(&EnvValue::NotUnicode),
        (TerminalBackend::DirectShell, Some(BackendWarning::NotUnicode))
    );
}

#[test]
fn session_state_follows_semantic_events() {
    let id = TerminalSessionId::from_u64(4);
    let mut state = TerminalSessionState::new(id);
    assert_eq!(state.snapshot(), TerminalSessionSnapshot::default());
    assert!(state.blocks_snapshot().is_empty());

    state.handle_semantic_event(&ShellSemanticEvent::PromptStart, Timestamp::from_unix_secs(1));
    state.handle_semantic_event(
        &ShellSemanticEvent::CommandStart { command: Some("ls".to_string()) },
        Timestamp::from_unix_secs(2),
    );
    let current = state.current_block().unwrap();
    assert_eq!(current.command.as_deref(), Some("ls"));
    assert_eq!(current.session_id, id);
    assert_eq!(state.snapshot().state, CommandLifecycleState::Running);

    state.handle_semantic_event(&ShellSemanticEvent::command_output_chunk(b"x"), Timestamp::from_unix_secs(3));
    state.handle_semantic_event(
        &ShellSemanticEvent::CommandFinished { status: Some(0) },
        Timestamp::from_unix_secs(4),
    );

    assert_eq!(
        state.snapshot(),
        TerminalSessionSnapshot {
            state: CommandLifecycleState::Finished,
            last_exit_status: Some(0),
            command_count: 1,
        }
    );
    assert_eq!(state.current_block(), None);
    let blocks = state.blocks_snapshot();
    assert_eq!(blocks.len(), 1);
    assert_eq!(blocks[0].id.as_u64(), 1);
    assert_eq!(blocks[0].started_at, Timestamp::from_unix_secs(2));
    assert_eq!(blocks[0].ended_at, Some(Timestamp::from_unix_secs(4)));
    assert_eq!(blocks[0].exit_status, Some(0));
    assert!(blocks[0].output_bytes.is_empty());
}
