use tessera::terminal::export::{export_command_blocks, is_false, is_zero, CommandBlockExport};
use tessera::terminal::{CommandBlock, CommandBlockId, TerminalSessionId, Timestamp};

fn block(id: u64, command: Option<&str>, ended_at_millis: Option<u64>) -> CommandBlock {
    CommandBlock {
        id: CommandBlockId::from_u64(id),
        session_id: TerminalSessionId::from_u64(2),
        command: command.map(str::to_string),
        started_at: Timestamp::from_unix_millis(1_000),
        ended_at: ended_at_millis.map(Timestamp::from_unix_millis),
        exit_status: ended_at_millis.map(|_| 0),
        output_bytes: b"abc".to_vec(),
        output_truncated: false,
    }
}

#[test]
fn exports_a_finished_block() {
    assert_eq!(
        CommandBlockExport::from_block(&block(9, Some("ls"), Some(3_500))),
        CommandBlockExport {
            id: 9,
            session_id: 2,
            command: Some("ls".to_string()),
            state: "finished",
            exit_status: Some(0),
            duration_ms: Some(2_500),
            output_size_bytes: 3,
            output_truncated: false,
        }
    );
}

#[test]
fn exports_a_running_block_without_blank_command() {
    let export = CommandBlockExport::from_block(&block(1, Some("  \t"), None));
    assert_eq!(export.command, None);
    assert_eq!(export.state, "running");
    assert_eq!(export.duration_ms, None);
}

#[test]
fn exports_blocks_in_order() {
    let exports = export_command_blocks(&[block(1, None, Some(1_000)), block(2, Some("a"), None)]);
    assert_eq!(exports.len(), 2);
    assert_eq!(exports[0].id, 1);
    assert_eq!(exports[0].duration_ms, Some(0));
    assert_eq!(exports[1].id, 2);
}

#[test]
fn skips_zero_and_false_fields() {
    assert!(is_zero(&0));
    assert!(!is_zero(&5));
    assert!(is_false(&false));
    assert!(!is_false(&true));
}

#[test]
fn block_ending_before_its_start_has_no_duration() {
    let mut early = block(3, Some("x"), Some(500));
    early.exit_status = Some(1);
    assert_eq!(early.duration(), None);
    assert_eq!(CommandBlockExport::from_block(&early).duration_ms, None);
}
