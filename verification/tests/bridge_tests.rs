use mio_child_process::{
    reader_step, wait_plan, EventChannel, ExitInfo, IoErrorInfo, Process, ProcessEvent,
    ReadOutcome, ReaderAction, RecvResult, StdioChannel, Utf8ErrorInfo, WaitOutcome,
};

#[test]
fn reader_stops_silently_on_a_closed_stream() {
    let action = reader_step(ReadOutcome::Closed, StdioChannel::Stdout);
    assert_eq!(action, ReaderAction::Stop);
}

#[test]
fn reader_forwards_a_chunk_and_keeps_reading() {
    let action = reader_step(ReadOutcome::Chunk(b"hi".to_vec()), StdioChannel::Stdout);
    assert_eq!(
        action,
        ReaderAction::EmitThenContinue(ProcessEvent::Data(
            StdioChannel::Stdout,
            String::from("hi")
        ))
    );
}

#[test]
fn reader_reports_invalid_text_once_and_stops() {
    let action = reader_step(ReadOutcome::Chunk(vec![0xf0, 0x28]), StdioChannel::Stderr);
    assert_eq!(
        action,
        ReaderAction::EmitThenStop(ProcessEvent::Utf8Error(
            StdioChannel::Stderr,
            Utf8ErrorInfo { valid_up_to: 0 }
        ))
    );
}

#[test]
fn reader_reports_a_failed_read_and_stops() {
    let action = reader_step(ReadOutcome::Failed(IoErrorInfo::Os(5)), StdioChannel::Stdout);
    assert_eq!(
        action,
        ReaderAction::EmitThenStop(ProcessEvent::IoError(
            StdioChannel::Stdout,
            IoErrorInfo::Os(5)
        ))
    );
}

#[test]
fn waiter_reports_a_failed_wait_without_an_exit_event() {
    let events = wait_plan(WaitOutcome::Failed(IoErrorInfo::Os(3)));
    assert_eq!(events, vec![ProcessEvent::CommandError(IoErrorInfo::Os(3))]);
}

#[test]
fn waiter_emits_exactly_one_exit_event_without_trailing_output() {
    let status = ExitInfo { code: Some(0) };
    let events = wait_plan(WaitOutcome::Finished(status, Vec::new(), Vec::new()));
    assert_eq!(events, vec![ProcessEvent::Exit(ExitInfo { code: Some(0) })]);
}

#[test]
fn waiter_forwards_trailing_output_before_the_exit_event() {
    let status = ExitInfo { code: Some(7) };
    let events = wait_plan(WaitOutcome::Finished(status, b"tail".to_vec(), b"oops".to_vec()));
    assert_eq!(
        events,
        vec![
            ProcessEvent::Data(StdioChannel::Stdout, String::from("tail")),
            ProcessEvent::Data(StdioChannel::Stderr, String::from("oops")),
            ProcessEvent::Exit(ExitInfo { code: Some(7) }),
        ]
    );
}

#[test]
fn waiter_stops_without_exit_when_trailing_output_is_invalid() {
    let status = ExitInfo { code: Some(0) };
    let events = wait_plan(WaitOutcome::Finished(status, vec![0x80], b"x".to_vec()));
    assert_eq!(
        events,
        vec![ProcessEvent::Utf8Error(
            StdioChannel::Stdout,
            Utf8ErrorInfo { valid_up_to: 0 }
        )]
    );
}

#[test]
fn waiter_stops_without_exit_when_trailing_stderr_is_invalid() {
    let status = ExitInfo { code: Some(0) };
    let events = wait_plan(WaitOutcome::Finished(status, b"ok".to_vec(), vec![0xc0]));
    assert_eq!(
        events,
        vec![
            ProcessEvent::Data(StdioChannel::Stdout, String::from("ok")),
            ProcessEvent::Utf8Error(StdioChannel::Stderr, Utf8ErrorInfo { valid_up_to: 0 }),
        ]
    );
}

#[test]
fn channel_delivers_events_in_order_then_reports_disconnected() {
    let mut channel = EventChannel::new(1);
    assert_eq!(channel.try_recv(), RecvResult::Empty);
    channel.send(ProcessEvent::Data(StdioChannel::Stdout, String::from("a")));
    channel.send(ProcessEvent::Exit(ExitInfo { code: Some(0) }));
    channel.producer_done();
    assert_eq!(
        channel.try_recv(),
        RecvResult::Received(ProcessEvent::Data(StdioChannel::Stdout, String::from("a")))
    );
    assert_eq!(
        channel.try_recv(),
        RecvResult::Received(ProcessEvent::Exit(ExitInfo { code: Some(0) }))
    );
    assert_eq!(channel.try_recv(), RecvResult::Disconnected);
}

#[test]
fn channel_stays_disconnected_forever() {
    let mut channel = EventChannel::new(1);
    channel.producer_done();
    assert_eq!(channel.try_recv(), RecvResult::Disconnected);
    assert_eq!(channel.try_recv(), RecvResult::Disconnected);
    assert_eq!(channel.try_recv(), RecvResult::Disconnected);
}

#[test]
fn process_write_without_captured_input_reports_not_connected() {
    let mut process = Process::new(42, false, 1);
    assert_eq!(process.id(), 42);
    assert_eq!(process.write(b"data"), Err(IoErrorInfo::NotConnected));
    assert_eq!(process.flush(), Err(IoErrorInfo::NotConnected));
}

#[test]
fn process_write_passes_bytes_through_when_input_is_captured() {
    let mut process = Process::new(7, true, 1);
    assert_eq!(process.write(b"abc"), Ok(3));
    assert_eq!(process.flush(), Ok(()));
}

#[test]
fn hello_process_yields_its_output_then_exit_then_disconnected() {
    // A process that prints "hello", writes nothing to stderr and exits with
    // status zero, both streams captured: three producers feed the handle.
    let mut process = Process::new(1, false, 3);

    // The stdout reader forwards its one chunk, then sees the stream close.
    match reader_step(ReadOutcome::Chunk(b"hello".to_vec()), StdioChannel::Stdout) {
        ReaderAction::EmitThenContinue(event) => process.deliver(event),
        _ => panic!("the chunk should be forwarded"),
    }
    assert_eq!(
        reader_step(ReadOutcome::Closed, StdioChannel::Stdout),
        ReaderAction::Stop
    );
    process.producer_done();

    // The stderr reader sees its stream close at once.
    assert_eq!(
        reader_step(ReadOutcome::Closed, StdioChannel::Stderr),
        ReaderAction::Stop
    );
    process.producer_done();

    // The exit waiter finds no trailing output and the exit status.
    let status = ExitInfo { code: Some(0) };
    for event in wait_plan(WaitOutcome::Finished(status, Vec::new(), Vec::new())) {
        process.deliver(event);
    }
    process.producer_done();

    assert_eq!(
        process.try_recv(),
        RecvResult::Received(ProcessEvent::Data(StdioChannel::Stdout, String::from("hello")))
    );
    assert_eq!(
        process.try_recv(),
        RecvResult::Received(ProcessEvent::Exit(ExitInfo { code: Some(0) }))
    );
    assert_eq!(process.try_recv(), RecvResult::Disconnected);
    assert_eq!(process.try_recv(), RecvResult::Disconnected);
}

#[test]
fn split_output_is_neither_lost_nor_duplicated_nor_reordered() {
    // The child writes "hello" but the reader picks it up in two reads; the
    // forwarded texts concatenate back to exactly what was written.
    let mut text = String::new();
    for chunk in [b"hel".to_vec(), b"lo".to_vec()] {
        match reader_step(ReadOutcome::Chunk(chunk), StdioChannel::Stdout) {
            ReaderAction::EmitThenContinue(ProcessEvent::Data(tag, part)) => {
                assert_eq!(tag, StdioChannel::Stdout);
                text.push_str(&part);
            },
            _ => panic!("each chunk should be forwarded"),
        }
    }
    assert_eq!(text, "hello");
}

#[test]
fn each_stream_tag_keeps_its_own_order() {
    let mut channel = EventChannel::new(2);
    channel.send(ProcessEvent::Data(StdioChannel::Stdout, String::from("a")));
    channel.send(ProcessEvent::Data(StdioChannel::Stderr, String::from("x")));
    channel.send(ProcessEvent::Data(StdioChannel::Stdout, String::from("b")));
    channel.send(ProcessEvent::Data(StdioChannel::Stderr, String::from("y")));
    let mut stdout_texts = Vec::new();
    let mut stderr_texts = Vec::new();
    while let RecvResult::Received(event) = channel.try_recv() {
        match event {
            ProcessEvent::Data(StdioChannel::Stdout, text) => stdout_texts.push(text),
            ProcessEvent::Data(StdioChannel::Stderr, text) => stderr_texts.push(text),
            _ => panic!("only data events were sent"),
        }
    }
    assert_eq!(stdout_texts, vec!["a", "b"]);
    assert_eq!(stderr_texts, vec!["x", "y"]);
}

#[test]
fn exit_status_success_means_code_zero() {
    assert!(ExitInfo { code: Some(0) }.success());
    assert!(!ExitInfo { code: Some(1) }.success());
    assert!(!ExitInfo { code: None }.success());
}
