use tessera::terminal::command_block::CommandBlockTracker;
use tessera::terminal::markdown::{format_command_block_markdown, format_command_blocks_markdown_table};
use tessera::terminal::{CommandBlock, CommandBlockId, ElapsedTime, TerminalSessionId, Timestamp};

fn session_id() -> TerminalSessionId {
    TerminalSessionId::from_u64(7)
}

fn at(seconds: u64) -> Timestamp {
    Timestamp::from_unix_secs(seconds)
}

fn at_millis(millis: u64) -> Timestamp {
    Timestamp::from_unix_millis(millis)
}

fn command_block(
    id: u64,
    command: Option<&str>,
    ended_at: Option<Timestamp>,
    exit_status: Option<i32>,
) -> CommandBlock {
    CommandBlock {
        id: CommandBlockId::from_u64(id),
        session_id: session_id(),
        command: command.map(str::to_string),
        started_at: at_millis(1_000),
        ended_at,
        exit_status,
        output_bytes: Vec::new(),
        output_truncated: false,
    }
}

#[test]
fn start_command_creates_one_open_block() {
    let mut tracker = CommandBlockTracker::new(session_id());

    tracker.command_started(None, at(10));

    let blocks = tracker.blocks();
    assert_eq!(blocks.len(), 1);
    assert_eq!(blocks[0].id.as_u64(), 1);
    assert_eq!(blocks[0].session_id, session_id());
    assert_eq!(blocks[0].command.as_deref(), None);
    assert_eq!(blocks[0].started_at, at(10));
    assert_eq!(blocks[0].ended_at, None);
    assert_eq!(blocks[0].exit_status, None);
    assert_eq!(blocks[0].output_bytes, Vec::<u8>::new());
    assert!(!blocks[0].output_truncated);
    assert_eq!(tracker.current_block(), Some(&blocks[0]));
}

#[test]
fn finish_command_closes_block_with_status() {
    let mut tracker = CommandBlockTracker::new(session_id());

    tracker.command_started(None, at(10));
    tracker.command_finished(Some(0), at(13));

    let block = &tracker.blocks()[0];
    assert_eq!(block.ended_at, Some(at(13)));
    assert_eq!(block.exit_status, Some(0));
    assert!(block.is_finished());
    assert_eq!(tracker.current_block(), None);
}

#[test]
fn duration_is_computed() {
    let mut tracker = CommandBlockTracker::new(session_id());

    tracker.command_started(None, at(10));
    tracker.command_finished(Some(0), at(15));

    assert_eq!(tracker.blocks()[0].duration(), Some(ElapsedTime::from_secs(5)));
}

#[test]
fn multiple_commands_create_multiple_blocks() {
    let mut tracker = CommandBlockTracker::new(session_id());

    tracker.command_started(Some("echo hello".to_string()), at(10));
    tracker.command_finished(Some(0), at(11));
    tracker.command_started(Some("false".to_string()), at(12));
    tracker.command_finished(Some(1), at(14));

    let blocks = tracker.blocks();
    assert_eq!(blocks.len(), 2);
    assert_eq!(blocks[0].id.as_u64(), 1);
    assert_eq!(blocks[0].command.as_deref(), Some("echo hello"));
    assert_eq!(blocks[0].exit_status, Some(0));
    assert_eq!(blocks[1].id.as_u64(), 2);
    assert_eq!(blocks[1].command.as_deref(), Some("false"));
    assert_eq!(blocks[1].exit_status, Some(1));
    assert_eq!(tracker.current_block(), None);
}

#[test]
fn command_text_is_stored_on_block_start() {
    let mut tracker = CommandBlockTracker::new(session_id());

    tracker.command_started(Some("cargo test".to_string()), at(10));

    assert_eq!(tracker.blocks()[0].command.as_deref(), Some("cargo test"));
    assert_eq!(
        tracker.current_block().unwrap().command.as_deref(),
        Some("cargo test")
    );
}

#[test]
fn finish_without_start_does_not_panic() {
    let mut tracker = CommandBlockTracker::new(session_id());

    tracker.command_finished(Some(1), at(10));

    assert!(tracker.blocks().is_empty());
    assert_eq!(tracker.current_block(), None);
}

#[test]
fn start_while_previous_block_open_closes_previous_defensively() {
    let mut tracker = CommandBlockTracker::new(session_id());

    tracker.command_started(Some("sleep 1".to_string()), at(10));
    tracker.command_started(Some("echo next".to_string()), at(12));

    let blocks = tracker.blocks();
    assert_eq!(blocks.len(), 2);
    assert_eq!(blocks[0].command.as_deref(), Some("sleep 1"));
    assert_eq!(blocks[0].ended_at, Some(at(12)));
    assert_eq!(blocks[0].exit_status, None);
    assert_eq!(blocks[1].command.as_deref(), Some("echo next"));
    assert_eq!(blocks[1].ended_at, None);
    assert_eq!(tracker.current_block(), Some(&blocks[1]));
}

#[test]
fn output_chunk_appends_to_current_block() {
    let mut tracker = CommandBlockTracker::new(session_id());

    tracker.command_started(Some("echo hello".to_string()), at(10));
    tracker.append_output_chunk(b"hello");
    tracker.append_output_chunk(b"\n");

    let block = &tracker.blocks()[0];
    assert_eq!(block.output_bytes, b"hello\n");
    assert!(!block.output_truncated);
}

#[test]
fn output_chunk_without_current_block_does_not_panic() {
    let mut tracker = CommandBlockTracker::new(session_id());

    tracker.append_output_chunk(b"orphan output");

    assert!(tracker.blocks().is_empty());
    assert_eq!(tracker.current_block(), None);
}

#[test]
fn output_truncated_marks_current_block() {
    let mut tracker = CommandBlockTracker::new(session_id());

    tracker.command_started(Some("seq 1 1000000".to_string()), at(10));
    tracker.mark_output_truncated();

    assert!(tracker.blocks()[0].output_truncated);
}

#[test]
fn captured_output_lossy_text_preserves_text_and_line_breaks() {
    let mut block = command_block(19, Some("printf hello"), Some(at_millis(1_084)), Some(0));
    block.output_bytes = b"hello\nworld\n".to_vec();
    let original_output = block.output_bytes.clone();

    assert_eq!(block.captured_output_lossy_text(), "hello\nworld\n");
    assert_eq!(block.output_bytes, original_output);
}

#[test]
fn captured_output_lossy_text_is_empty_for_empty_output() {
    let block = command_block(20, Some("true"), Some(at_millis(1_084)), Some(0));

    assert_eq!(block.captured_output_lossy_text(), "");
}

#[test]
fn captured_output_lossy_text_converts_non_utf8_lossily() {
    let mut block = command_block(21, Some("printf bytes"), Some(at_millis(1_084)), Some(0));
    block.output_bytes = vec![b'o', b'k', b' ', 0xff, 0xfe, b'\n'];

    assert_eq!(block.captured_output_lossy_text(), "ok \u{fffd}\u{fffd}\n");
}

#[test]
fn formats_successful_command_block_markdown() {
    let block = command_block(12, Some("echo hello"), Some(at_millis(1_084)), Some(0));

    assert_eq!(
        format_command_block_markdown(&block),
        [
            "## Command Block #12\n\n",
            "- State: finished\n",
            "- Exit status: 0\n",
            "- Duration: 84ms\n",
            "- Command:\n\n",
            "```sh\n",
            "echo hello\n",
            "```\n",
        ]
        .concat()
    );
}

#[test]
fn formats_command_block_markdown_with_output_metadata() {
    let mut block = command_block(17, Some("echo hello"), Some(at_millis(1_084)), Some(0));
    block.output_bytes = b"hello\n".to_vec();

    assert_eq!(
        format_command_block_markdown(&block),
        [
            "## Command Block #17\n\n",
            "- State: finished\n",
            "- Exit status: 0\n",
            "- Duration: 84ms\n",
            "- Command:\n\n",
            "```sh\n",
            "echo hello\n",
            "```\n",
            "- Output: 6 B\n",
            "- Output truncated: no\n",
        ]
        .concat()
    );
}

#[test]
fn formats_command_block_markdown_with_output_text() {
    let mut block = command_block(22, Some("echo hello"), Some(at_millis(1_084)), Some(0));
    block.output_bytes = b"hello\n".to_vec();

    assert_eq!(
        block.to_markdown_with_output(),
        [
            "## Command #22\n\n",
            "- Status: `0`\n",
            "- Duration: `84ms`\n",
            "- Output: `6 B`\n",
            "- Truncated: `false`\n\n",
            "### Command\n\n",
            "```fish\n",
            "echo hello\n",
            "```\n\n",
            "### Output\n\n",
            "```text\n",
            "hello\n",
            "```\n",
        ]
        .concat()
    );
}

#[test]
fn formats_command_block_markdown_with_truncated_output_text() {
    let mut block = command_block(23, Some("yes"), Some(at_millis(1_084)), Some(141));
    block.output_bytes = b"y".to_vec();
    block.output_truncated = true;

    assert_eq!(
        block.to_markdown_with_output(),
        [
            "## Command #23\n\n",
            "- Status: `141`\n",
            "- Duration: `84ms`\n",
            "- Output: `1 B`\n",
            "- Truncated: `true`\n\n",
            "### Command\n\n",
            "```fish\n",
            "yes\n",
            "```\n\n",
            "### Output\n\n",
            "```text\n",
            "y\n",
            "[output truncated]\n",
            "```\n",
        ]
        .concat()
    );
}

#[test]
fn formats_command_block_markdown_with_missing_output() {
    let block = command_block(24, Some("true"), Some(at_millis(1_084)), Some(0));

    assert_eq!(
        block.to_markdown_with_output(),
        [
            "## Command #24\n\n",
            "- Status: `0`\n",
            "- Duration: `84ms`\n",
            "- Output: `0 B`\n",
            "- Truncated: `false`\n\n",
            "### Command\n\n",
            "```fish\n",
            "true\n",
            "```\n\n",
            "### Output\n\n",
            "```text\n",
            "```\n",
        ]
        .concat()
    );
}

#[test]
fn formats_failed_command_block_markdown() {
    let block = command_block(13, Some("false"), Some(at_millis(1_042)), Some(1));

    assert_eq!(
        format_command_block_markdown(&block),
        [
            "## Command Block #13\n\n",
            "- State: finished\n",
            "- Exit status: 1\n",
            "- Duration: 42ms\n",
            "- Command:\n\n",
            "```sh\n",
            "false\n",
            "```\n",
        ]
        .concat()
    );
}

#[test]
fn formats_running_command_block_markdown() {
    let block = command_block(14, Some("sleep 10"), None, None);

    assert_eq!(
        format_command_block_markdown(&block),
        [
            "## Command Block #14\n\n",
            "- State: running\n",
            "- Exit status: unfinished\n",
            "- Duration: unfinished\n",
            "- Command:\n\n",
            "```sh\n",
            "sleep 10\n",
            "```\n",
        ]
        .concat()
    );
}

#[test]
fn formats_unknown_command_block_markdown() {
    let block = command_block(15, None, Some(at_millis(1_010)), Some(0));

    assert_eq!(
        format_command_block_markdown(&block),
        [
            "## Command Block #15\n\n",
            "- State: finished\n",
            "- Exit status: 0\n",
            "- Duration: 10ms\n",
            "- Command: <unknown command>\n",
        ]
        .concat()
    );
}

#[test]
fn preserves_long_commands_in_command_block_markdown() {
    let command = "printf 'this is a deliberately long command that keeps going past the row limit and should not be truncated in Markdown exports'";
    let block = command_block(16, Some(command), Some(at_millis(1_001)), Some(0));
    let block_markdown = format_command_block_markdown(&block);
    let table_markdown = format_command_blocks_markdown_table(&[block]);

    assert!(block_markdown.contains(command));
    assert!(table_markdown.contains(command));
    assert!(!block_markdown.contains("..."));
    assert!(!table_markdown.contains("..."));
}

#[test]
fn formats_recent_command_blocks_markdown_table() {
    let blocks = [
        command_block(12, Some("echo hello"), Some(at_millis(1_084)), Some(0)),
        command_block(13, Some("sleep 10"), None, None),
    ];

    assert_eq!(
        format_command_blocks_markdown_table(&blocks),
        [
            "| Block | State | Exit status | Duration | Command |\n",
            "| --- | --- | --- | --- | --- |\n",
            "| #12 | finished | 0 | 84ms | echo hello |\n",
            "| #13 | running | unfinished | unfinished | sleep 10 |\n",
        ]
        .concat()
    );
}

#[test]
fn formats_recent_command_blocks_markdown_table_with_output_metadata() {
    let mut first = command_block(12, Some("echo hello"), Some(at_millis(1_084)), Some(0));
    first.output_bytes = b"hello\n".to_vec();
    let mut second = command_block(13, Some("seq 1 10000"), Some(at_millis(1_090)), Some(0));
    second.output_bytes = vec![b'x'; 1536];
    second.output_truncated = true;
    let blocks = [first, second];

    assert_eq!(
        format_command_blocks_markdown_table(&blocks),
        [
            "| Block | State | Exit status | Duration | Output | Output truncated | Command |\n",
            "| --- | --- | --- | --- | --- | --- | --- |\n",
            "| #12 | finished | 0 | 84ms | 6 B | no | echo hello |\n",
            "| #13 | finished | 0 | 90ms | 1.5 KiB | yes | seq 1 10000 |\n",
        ]
        .concat()
    );
}

#[test]
fn formats_reports_of_all_blocks() {
    let mut first = command_block(1, Some("echo a"), Some(at_millis(1_005)), Some(0));
    first.output_bytes = b"a\n".to_vec();
    let second = command_block(2, None, None, None);
    let report = tessera::terminal::markdown::format_command_blocks_markdown_with_output(&[
        first.clone(),
        second.clone(),
    ]);

    assert_eq!(
        report,
        [first.to_markdown_with_output(), "\n".to_string(), second.to_markdown_with_output()].concat()
    );
    assert!(report.contains("```fish\n<unknown command>\n```"));
    assert!(report.contains("- Status: `unfinished`\n- Duration: `unfinished`\n"));
    assert_eq!(
        tessera::terminal::markdown::format_command_blocks_markdown_with_output(&[]),
        "_No command blocks._\n"
    );
    assert_eq!(format_command_blocks_markdown_table(&[]), "_No command blocks._\n");
}

#[test]
fn formats_report_from_given_output_text() {
    let mut block = command_block(30, Some("cat"), Some(at_millis(3_000)), Some(0));
    block.output_bytes = vec![0xff, b'\n'];
    block.output_truncated = true;
    let report = tessera::terminal::markdown::format_command_block_report(&block, "given");

    assert!(report.contains("- Duration: `2s`\n- Output: `2 B`\n- Truncated: `true`\n"));
    assert!(report.ends_with("```text\ngiven\n[output truncated]\n```\n"));
}
