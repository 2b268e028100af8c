use mio_child_process::{decode_chunk, ProcessEvent, StdioChannel, Utf8ErrorInfo};

#[test]
fn decode_chunk_forwards_valid_text() {
    let (event, go_on) = decode_chunk(b"hello", StdioChannel::Stdout);
    assert_eq!(
        event,
        Some(ProcessEvent::Data(StdioChannel::Stdout, String::from("hello")))
    );
    assert!(go_on);
}

#[test]
fn decode_chunk_decodes_multibyte_text() {
    let bytes = [0xc3u8, 0xa9u8];
    let (event, go_on) = decode_chunk(&bytes, StdioChannel::Stderr);
    assert_eq!(
        event,
        Some(ProcessEvent::Data(StdioChannel::Stderr, String::from("\u{e9}")))
    );
    assert!(go_on);
}

#[test]
fn decode_chunk_reports_invalid_text_and_stops() {
    let bytes = [0xffu8];
    let (event, go_on) = decode_chunk(&bytes, StdioChannel::Stdout);
    assert_eq!(
        event,
        Some(ProcessEvent::Utf8Error(
            StdioChannel::Stdout,
            Utf8ErrorInfo { valid_up_to: 0 }
        ))
    );
    assert!(!go_on);
}

#[test]
fn decode_chunk_counts_the_valid_prefix() {
    let bytes = [b'a', b'b', 0xc3u8];
    let (event, go_on) = decode_chunk(&bytes, StdioChannel::Stderr);
    assert_eq!(
        event,
        Some(ProcessEvent::Utf8Error(
            StdioChannel::Stderr,
            Utf8ErrorInfo { valid_up_to: 2 }
        ))
    );
    assert!(!go_on);
}

#[test]
fn decode_chunk_drops_an_empty_chunk_and_stops() {
    let bytes: [u8; 0] = [];
    let (event, go_on) = decode_chunk(&bytes, StdioChannel::Stdout);
    assert_eq!(event, None);
    assert!(!go_on);
}
