use tessera::shell_integration::event::{decode_base64, ShellSemanticEvent};
use tessera::shell_integration::osc133::Osc133Event;

#[test]
fn command_output_chunk_preserves_binary_bytes() {
    let event = ShellSemanticEvent::command_output_chunk(&[0, 1, 2, 253, 254, 255]);
    let ShellSemanticEvent::CommandOutputChunk { bytes_base64 } = event else {
        panic!("expected command output chunk");
    };

    assert_eq!(bytes_base64, "AAEC/f7/");
    assert_eq!(
        decode_base64(&bytes_base64).unwrap(),
        vec![0, 1, 2, 253, 254, 255]
    );
}

#[test]
fn rejects_malformed_base64() {
    assert!(decode_base64("aGVsbG8").is_err());
    assert!(decode_base64("aGV!").is_err());
    assert!(decode_base64("a=Vs").is_err());
}

#[test]
fn converts_from_osc133_event() {
    assert_eq!(
        ShellSemanticEvent::from(Osc133Event::PromptStart),
        ShellSemanticEvent::PromptStart
    );
    assert_eq!(
        ShellSemanticEvent::from(Osc133Event::PromptEnd),
        ShellSemanticEvent::PromptEnd
    );
    assert_eq!(
        ShellSemanticEvent::from(Osc133Event::CommandStart {
            command: Some("echo hello".to_string()),
        }),
        ShellSemanticEvent::CommandStart {
            command: Some("echo hello".to_string()),
        }
    );
    assert_eq!(
        ShellSemanticEvent::from(Osc133Event::CommandFinished { status: Some(7) }),
        ShellSemanticEvent::CommandFinished { status: Some(7) }
    );
}
