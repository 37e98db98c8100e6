use tessera::shell_integration::event::ShellSemanticEvent;
use tessera::shell_integration::osc133::{Osc133Event, Osc133Parser, Osc133Record};
use tessera::terminal::command_block::CommandBlockTracker;
use tessera::terminal::command_input::normalize_command_line_endings;
use tessera::terminal::command_state::CommandStateTracker;
use tessera::terminal::markdown::escape_markdown_table_cell;
use tessera::terminal::{CommandBlock, CommandLifecycleState, TerminalSessionId, Timestamp};

const STREAM: &[u8] = b"boot\x1b]133;A\x07$ \x1b]133;B\x1b\\\x1b]133;C;cmdline_url=ls%20-l\x07total 0\n\x1b]0;title\x07\x1b]133;D;2\x07done";

fn events_of_chunks(chunks: &[&[u8]], extended: bool) -> (Vec<Osc133Event>, usize) {
    let mut parser = if extended {
        Osc133Parser::with_extended_markers()
    } else {
        Osc133Parser::default()
    };
    let mut events = Vec::new();
    for chunk in chunks {
        events.extend(parser.push(chunk));
    }
    (events, parser.buffered_len())
}

#[test]
fn splitting_the_stream_anywhere_gives_the_same_events() {
    for extended in [false, true] {
        let whole = events_of_chunks(&[STREAM], extended);
        assert_eq!(whole.0.len(), if extended { 4 } else { 3 });
        for split in 0..=STREAM.len() {
            let (first, second) = STREAM.split_at(split);
            assert_eq!(events_of_chunks(&[first, second], extended), whole, "split at {split}");
        }
    }
}

#[test]
fn byte_by_byte_feeding_gives_the_same_events() {
    let chunks: Vec<&[u8]> = STREAM.chunks(1).collect();
    assert_eq!(events_of_chunks(&chunks, true), events_of_chunks(&[STREAM], true));
}

#[test]
fn record_stream_loses_no_output_bytes() {
    let mut parser = Osc133Parser::default();
    let input: &[u8] = b"left\x1b]2;t\x07mid\x1b]133;A\x07right\x1b]133;D;0\x07";
    let records = parser.push_records(input);
    let mut output = Vec::new();
    let mut events = 0;
    for record in records {
        match record {
            Osc133Record::Output(bytes) => output.extend(bytes),
            Osc133Record::Event(_) => events += 1,
        }
    }
    assert_eq!(output, b"left\x1b]2;t\x07midright".to_vec());
    assert_eq!(events, 2);
    assert_eq!(parser.buffered_len(), 0);
}

#[test]
fn command_count_counts_finished_commands() {
    let mut tracker = CommandStateTracker::default();
    let events = [
        ShellSemanticEvent::PromptStart,
        ShellSemanticEvent::CommandFinished { status: Some(1) },
        ShellSemanticEvent::command_output_chunk(b"x"),
        ShellSemanticEvent::CommandOutputTruncated { limit_bytes: 4 },
        ShellSemanticEvent::CommandStart { command: None },
        ShellSemanticEvent::CommandFinished { status: None },
        ShellSemanticEvent::PromptEnd,
    ];
    for event in &events {
        tracker.apply_semantic_event(event);
    }
    let snapshot = tracker.snapshot();
    assert_eq!(snapshot.command_count, 2);
    assert_eq!(snapshot.state, CommandLifecycleState::Input);
    assert_eq!(snapshot.last_exit_status, None);
}

#[test]
fn output_events_leave_the_snapshot_unchanged() {
    let mut tracker = CommandStateTracker::default();
    tracker.apply_semantic_event(&ShellSemanticEvent::CommandStart { command: None });
    let before = tracker.snapshot();
    tracker.apply_semantic_event(&ShellSemanticEvent::command_output_chunk(b"abc"));
    tracker.apply_semantic_event(&ShellSemanticEvent::CommandOutputTruncated { limit_bytes: 1 });
    assert_eq!(tracker.snapshot(), before);
}

fn assert_tracker_invariant(tracker: &CommandBlockTracker, session: TerminalSessionId) {
    let blocks: &[CommandBlock] = tracker.blocks();
    for (index, block) in blocks.iter().enumerate() {
        assert_eq!(block.id.as_u64(), index as u64 + 1);
        assert_eq!(block.session_id, session);
        if index + 1 < blocks.len() {
            assert!(block.is_finished());
        }
    }
    match tracker.current_block() {
        Some(current) => {
            assert_eq!(current, blocks.last().unwrap());
            assert!(!current.is_finished());
        }
        None => assert!(blocks.iter().all(CommandBlock::is_finished)),
    }
}

#[test]
fn tracker_keeps_its_invariant_and_history() {
    let session = TerminalSessionId::from_u64(3);
    let mut tracker = CommandBlockTracker::new(session);
    let mut state: u32 = 99;
    let mut history: Vec<CommandBlock> = Vec::new();
    for step in 0..300u64 {
        state = state.wrapping_mul(1103515245).wrapping_add(12345);
        let now = Timestamp::from_unix_secs(step);
        match (state >> 16) % 4 {
            0 => tracker.command_started(Some(format!("cmd {step}")), now),
            1 => tracker.command_finished(Some((step % 3) as i32), now),
            2 => tracker.append_output_chunk(b"out"),
            _ => tracker.mark_output_truncated(),
        }
        assert_tracker_invariant(&tracker, session);
        let blocks = tracker.blocks();
        assert!(blocks.len() >= history.len());
        for (index, old) in history.iter().enumerate() {
            if old.is_finished() {
                assert_eq!(&blocks[index], old);
            }
        }
        history = blocks.to_vec();
    }
}

#[test]
fn start_then_finish_leaves_one_closed_block() {
    let session = TerminalSessionId::from_u64(5);
    let mut tracker = CommandBlockTracker::new(session);
    tracker.command_started(Some("make".to_string()), Timestamp::from_unix_secs(1));
    tracker.command_finished(Some(2), Timestamp::from_unix_secs(4));
    tracker.command_started(Some("make test".to_string()), Timestamp::from_unix_secs(5));
    tracker.command_finished(None, Timestamp::from_unix_secs(9));

    let blocks = tracker.blocks();
    assert_eq!(blocks.len(), 2);
    let last = &blocks[1];
    assert_eq!(last.id.as_u64(), 2);
    assert_eq!(last.command.as_deref(), Some("make test"));
    assert_eq!(last.started_at, Timestamp::from_unix_secs(5));
    assert_eq!(last.ended_at, Some(Timestamp::from_unix_secs(9)));
    assert_eq!(last.exit_status, None);
    assert_eq!(tracker.current_block(), None);
}

#[test]
fn fence_outlasts_backticks_in_the_text() {
    let mut tracker = CommandBlockTracker::new(TerminalSessionId::from_u64(1));
    tracker.command_started(Some("echo ````x``".to_string()), Timestamp::from_unix_secs(1));
    tracker.append_output_chunk(b"a ``` b");
    tracker.command_finished(Some(0), Timestamp::from_unix_secs(2));
    let markdown = tracker.blocks()[0].to_markdown_with_output();
    assert!(markdown.contains("`````fish\necho ````x``\n`````"));
    assert!(markdown.contains("````text\na ``` b\n````"));
}

#[test]
fn normalising_line_endings_twice_changes_nothing() {
    for text in ["a\r\nb\rc\n", "\r\r\n\n", "plain", "", "\r"] {
        let once = normalize_command_line_endings(text);
        assert!(!once.contains('\r'));
        assert_eq!(normalize_command_line_endings(&once), once);
    }
}

#[test]
fn escaped_table_cells_stay_on_one_line() {
    let escaped = escape_markdown_table_cell("a\nb\r\nc|d\\");
    assert_eq!(escaped, "a<br>b\\r<br>c\\|d\\\\");
    assert!(!escaped.contains('\n'));
    assert!(!escaped.contains('\r'));
}

fn merged(records: Vec<Osc133Record>) -> Vec<Osc133Record> {
    let mut out: Vec<Osc133Record> = Vec::new();
    for record in records {
        match (out.last_mut(), record) {
            (Some(Osc133Record::Output(bytes)), Osc133Record::Output(more)) => bytes.extend(more),
            (_, record) => out.push(record),
        }
    }
    out
}

#[test]
fn splitting_the_stream_anywhere_gives_the_same_merged_records() {
    for extended in [false, true] {
        let fresh = || {
            if extended {
                Osc133Parser::with_extended_markers()
            } else {
                Osc133Parser::default()
            }
        };
        let mut whole = fresh();
        let expected = merged(whole.push_records(STREAM));
        for split in 0..=STREAM.len() {
            let (first, second) = STREAM.split_at(split);
            let mut parser = fresh();
            let mut records = parser.push_records(first);
            records.extend(parser.push_records(second));
            assert_eq!(merged(records), expected, "split at {split}");
            assert_eq!(parser.buffered_len(), whole.buffered_len());
        }
    }
}

#[test]
fn eventless_prefix_leaves_the_events_unchanged() {
    let tails: [&[u8]; 4] = [b"", b"\x1b]133;A\x07", b"x\x1b]133;D;3\x07\x1b", b"\x1b]133;C"];
    let prefixes: [&[u8]; 4] = [b"hello world\n", b"cmdline_url=echo%20hello\n", b"\x1b]0;window title\x07", b""];
    for extended in [false, true] {
        for prefix in prefixes {
            for tail in tails {
                let fresh = || {
                    if extended {
                        Osc133Parser::with_extended_markers()
                    } else {
                        Osc133Parser::default()
                    }
                };
                let mut with_prefix = fresh();
                let mut without = fresh();
                let joined = [prefix, tail].concat();
                assert_eq!(with_prefix.push(&joined), without.push(tail));
                assert_eq!(with_prefix.buffered_len(), without.buffered_len());
            }
        }
    }
}
