use tessera::terminal::command_input::{
    command_input_availability, normalized_command_for_insert, normalized_command_for_run,
    CommandInputAvailability,
};
use tessera::terminal::CommandLifecycleState;

#[test]
fn empty_command_is_rejected() {
    assert_eq!(normalized_command_for_insert(""), None);
    assert_eq!(normalized_command_for_run(""), None);
    assert_eq!(
        command_input_availability(Some(""), CommandLifecycleState::Prompt),
        CommandInputAvailability {
            can_insert: false,
            can_run: false,
        }
    );
}

#[test]
fn whitespace_only_command_is_rejected() {
    assert_eq!(normalized_command_for_insert(" \t\n "), None);
    assert_eq!(normalized_command_for_run(" \t\n "), None);
    assert_eq!(
        command_input_availability(Some(" \t\n "), CommandLifecycleState::Input),
        CommandInputAvailability {
            can_insert: false,
            can_run: false,
        }
    );
}

#[test]
fn single_line_command_can_run() {
    assert_eq!(
        normalized_command_for_run(" echo hello "),
        Some(" echo hello ".to_string())
    );
    assert_eq!(
        command_input_availability(Some("echo hello"), CommandLifecycleState::Finished),
        CommandInputAvailability {
            can_insert: true,
            can_run: true,
        }
    );
}

#[test]
fn multiline_command_can_insert() {
    assert_eq!(
        normalized_command_for_insert("echo hello\r\ntrue"),
        Some("echo hello\ntrue".to_string())
    );
    assert_eq!(
        command_input_availability(Some("echo hello\ntrue"), CommandLifecycleState::Prompt),
        CommandInputAvailability {
            can_insert: true,
            can_run: false,
        }
    );
}

#[test]
fn multiline_command_cannot_run() {
    assert_eq!(normalized_command_for_run("echo hello\ntrue"), None);
    assert_eq!(normalized_command_for_run("echo hello\rtrue"), None);
}

#[test]
fn running_lifecycle_disables_insert_and_run() {
    assert_eq!(
        command_input_availability(Some("echo hello"), CommandLifecycleState::Running),
        CommandInputAvailability {
            can_insert: false,
            can_run: false,
        }
    );
}
