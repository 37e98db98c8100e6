use tessera::shell_integration::osc133::{Osc133Event, Osc133Parser, Osc133Record, MAX_BUFFER_LEN};

#[test]
fn parses_prompt_start_bel_terminated() {
    let mut parser = Osc133Parser::default();

    assert_eq!(parser.push(b"\x1b]133;A\x07"), vec![Osc133Event::PromptStart]);
}

#[test]
fn parses_prompt_end_bel_terminated() {
    let mut parser = Osc133Parser::default();

    assert_eq!(parser.push(b"\x1b]133;B\x07"), vec![Osc133Event::PromptEnd]);
}

#[test]
fn parses_command_start_bel_terminated() {
    let mut parser = Osc133Parser::default();

    assert_eq!(
        parser.push(b"\x1b]133;C\x07"),
        vec![Osc133Event::CommandStart { command: None }]
    );
}

#[test]
fn parses_extended_command_start_cmdline_url_when_enabled() {
    let mut parser = Osc133Parser::with_extended_markers();

    assert_eq!(
        parser.push(b"\x1b]133;C;cmdline_url=echo%20hello\x07"),
        vec![Osc133Event::CommandStart {
            command: Some("echo hello".to_string()),
        }]
    );
}

#[test]
fn invalid_cmdline_url_encoding_does_not_panic() {
    let mut parser = Osc133Parser::with_extended_markers();

    assert_eq!(
        parser.push(b"\x1b]133;C;cmdline_url=echo%2hello\x07"),
        vec![Osc133Event::CommandStart { command: None }]
    );
}

#[test]
fn parses_command_finished_with_status_bel_terminated() {
    let mut parser = Osc133Parser::default();

    assert_eq!(
        parser.push(b"\x1b]133;D;0\x07"),
        vec![Osc133Event::CommandFinished { status: Some(0) }]
    );
}

#[test]
fn parses_command_finished_without_status() {
    let mut parser = Osc133Parser::default();

    assert_eq!(
        parser.push(b"\x1b]133;D\x07"),
        vec![Osc133Event::CommandFinished { status: None }]
    );
}

#[test]
fn parses_st_terminated_sequence() {
    let mut parser = Osc133Parser::default();

    assert_eq!(parser.push(b"\x1b]133;A\x1b\\"), vec![Osc133Event::PromptStart]);
}

#[test]
fn parses_split_sequence_across_push_calls() {
    let mut parser = Osc133Parser::default();

    assert!(parser.push(b"\x1b]133").is_empty());

    assert_eq!(
        parser.push(b";C\x07"),
        vec![Osc133Event::CommandStart { command: None }]
    );
}

#[test]
fn keeps_incomplete_osc_sequence_buffered_across_push_calls() {
    let mut parser = Osc133Parser::default();

    assert!(parser.push(b"abc\x1b]133;D;").is_empty());

    assert_eq!(
        parser.push(b"42\x07"),
        vec![Osc133Event::CommandFinished { status: Some(42) }]
    );
}

#[test]
fn discards_plain_text_before_osc_marker() {
    let mut parser = Osc133Parser::default();

    assert_eq!(
        parser.push(b"plain text before marker\x1b]133;A\x07"),
        vec![Osc133Event::PromptStart]
    );
}

#[test]
fn ignores_non_osc133_sequences() {
    let mut parser = Osc133Parser::default();

    assert!(parser.push(b"hello world\n").is_empty());
    assert!(parser.push(b"\x1b]0;window title\x07").is_empty());
}

#[test]
fn does_not_parse_cmdline_url_from_plain_output() {
    let mut parser = Osc133Parser::with_extended_markers();

    assert!(parser.push(b"cmdline_url=echo%20hello\n").is_empty());
}

#[test]
fn ignores_non_osc133_sequence_before_osc133_sequence_in_same_chunk() {
    let mut parser = Osc133Parser::default();

    assert_eq!(
        parser.push(b"\x1b]0;window title\x07\x1b]133;B\x07"),
        vec![Osc133Event::PromptEnd]
    );
}

#[test]
fn parses_multiple_events_in_one_chunk() {
    let mut parser = Osc133Parser::default();

    assert_eq!(
        parser.push(b"\x1b]133;A\x07\x1b]133;B\x07\x1b]133;C\x07\x1b]133;D;1\x07"),
        vec![
            Osc133Event::PromptStart,
            Osc133Event::PromptEnd,
            Osc133Event::CommandStart { command: None },
            Osc133Event::CommandFinished { status: Some(1) },
        ]
    );
}

#[test]
fn record_stream_preserves_output_order_and_removes_osc133_markers() {
    let mut parser = Osc133Parser::default();

    assert_eq!(
        parser.push_records(b"\x1b]133;C\x07hello\n\x1b]133;D;0\x07"),
        vec![
            Osc133Record::Event(Osc133Event::CommandStart { command: None }),
            Osc133Record::Output(b"hello\n".to_vec()),
            Osc133Record::Event(Osc133Event::CommandFinished { status: Some(0) }),
        ]
    );
}

#[test]
fn record_stream_preserves_non_osc133_sequences_as_output() {
    let mut parser = Osc133Parser::default();

    assert_eq!(
        parser.push_records(b"before\x1b]0;title\x07after"),
        vec![
            Osc133Record::Output(b"before".to_vec()),
            Osc133Record::Output(b"\x1b]0;title\x07".to_vec()),
            Osc133Record::Output(b"after".to_vec()),
        ]
    );
}

#[test]
fn invalid_status_does_not_panic() {
    let mut parser = Osc133Parser::default();

    // Keep the command-finished marker and drop only the malformed status.
    assert_eq!(
        parser.push(b"\x1b]133;D;not-a-status\x07"),
        vec![Osc133Event::CommandFinished { status: None }]
    );
}

#[test]
fn ignores_malformed_osc133_command() {
    let mut parser = Osc133Parser::default();

    assert!(parser.push(b"\x1b]133;X\x07").is_empty());
}

#[test]
fn ignores_extended_markers_by_default() {
    let mut parser = Osc133Parser::default();

    assert!(parser.push(b"\x1b]133;A;click_events=1\x07").is_empty());
    assert!(parser.push(b"\x1b]133;C;cmdline_url=echo%20hello\x07").is_empty());
}

#[test]
fn parses_extended_markers_when_enabled() {
    let mut parser = Osc133Parser::with_extended_markers();

    assert_eq!(
        parser.push(
            b"\x1b]133;A;click_events=1\x07\x1b]133;C;cmdline_url=echo%20hello\x07\x1b]133;D;7;extra=1\x07"
        ),
        vec![
            Osc133Event::PromptStart,
            Osc133Event::CommandStart {
                command: Some("echo hello".to_string()),
            },
            Osc133Event::CommandFinished { status: Some(7) },
        ]
    );
}

#[test]
fn large_non_osc_buffer_is_limited_and_does_not_panic() {
    let mut parser = Osc133Parser::default();
    let bytes = vec![b'x'; MAX_BUFFER_LEN * 2];

    assert!(parser.push(&bytes).is_empty());
    assert!(parser.buffered_len() <= MAX_BUFFER_LEN);
}
