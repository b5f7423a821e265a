use file_sinks::encoding::{log_event_as_bytes_with_nl, BasicEncoding};
use file_sinks::event::LogEvent;
use file_sinks::file::{
    disconnected, open_options, EventSend, FileSink, FileSinkConfig, IoPoll, OpenPoll, Readiness,
    SinkError, SinkState, StartSend,
};

fn random_lines(count: usize, len: usize, seed: u64) -> Vec<String> {
    let alphabet = b"abcdefghijklmnopqrstuvwxyzABCDEFGHIJKLMNOPQRSTUVWXYZ0123456789";
    let mut state = seed.wrapping_mul(6364136223846793005).wrapping_add(1442695040888963407);
    let mut lines = Vec::new();
    for _ in 0..count {
        let mut s = String::new();
        for _ in 0..len {
            state = state.wrapping_mul(6364136223846793005).wrapping_add(1442695040888963407);
            s.push(alphabet[((state >> 33) % alphabet.len() as u64) as usize] as char);
        }
        lines.push(s);
    }
    lines
}

fn message_event(msg: &str) -> LogEvent {
    LogEvent {
        fields: vec![(b"message".to_vec(), msg.as_bytes().to_vec())],
    }
}

/// Sends every event through a fresh sink onto `file` (which may already hold
/// data: the sink appends), closes the sink, and returns the file's lines.
fn test_with_encoding(inputs: &[String], encoding: BasicEncoding, file: &mut Vec<u8>) -> Vec<String> {
    let config = FileSinkConfig {
        path: b"test.out".to_vec(),
        encoding: Some(encoding),
    };
    let mut sink = FileSink::new(config.path.clone());
    let mut queued: Vec<u8> = Vec::new();
    let mut opened = false;
    for input in inputs {
        let mut line = log_event_as_bytes_with_nl(&message_event(input), config.encoding);
        loop {
            let open = if opened { OpenPoll::Opened } else { OpenPoll::Pending };
            match sink.start_send(line, open).unwrap() {
                StartSend::Accepted(b) => {
                    queued.extend_from_slice(&b);
                    break;
                }
                StartSend::NotReady(b) => {
                    line = b;
                    opened = true;
                }
            }
        }
    }
    file.extend_from_slice(&queued);
    assert_eq!(sink.close(OpenPoll::Opened, IoPoll::Done, IoPoll::Done), Ok(Readiness::Ready));
    String::from_utf8(file.clone())
        .unwrap()
        .lines()
        .map(|s| s.to_owned())
        .collect()
}

#[test]
fn text_output_is_correct() {
    let input = random_lines(100, 16, 1);
    let mut file = Vec::new();
    let output = test_with_encoding(&input, BasicEncoding::Text, &mut file);

    assert_eq!(output.len(), input.len());
    for (input, output) in input.into_iter().zip(output) {
        assert_eq!(input, output);
    }
}

#[test]
fn json_output_is_correct() {
    let input = random_lines(100, 16, 2);
    let mut file = Vec::new();
    let output = test_with_encoding(&input, BasicEncoding::Json, &mut file);

    assert_eq!(output.len(), input.len());
    for (input, output) in input.into_iter().zip(output) {
        let output: serde_json::Value = serde_json::from_str(&output[..]).unwrap();
        let output = output.get("message").and_then(|v| v.as_str()).unwrap();
        assert_eq!(input, output);
    }
}

#[test]
fn file_is_appended_not_truncated() {
    let mut file = Vec::new();
    let mut input1 = random_lines(100, 16, 3);
    test_with_encoding(&input1, BasicEncoding::Text, &mut file);

    let mut input2 = random_lines(100, 16, 4);
    let output = test_with_encoding(&input2, BasicEncoding::Text, &mut file);

    let mut input = vec![];
    input.append(&mut input1);
    input.append(&mut input2);

    assert_eq!(output.len(), input.len());
    for (input, output) in input.into_iter().zip(output) {
        assert_eq!(input, output);
    }
}

#[test]
fn file_opens_for_append_without_truncating() {
    let o = open_options();
    assert!(o.create);
    assert!(o.append);
    assert!(!o.truncate);
}

#[test]
fn config_new_has_no_encoding() {
    let c = FileSinkConfig::new(b"/tmp/x.log".to_vec());
    assert_eq!(c.path, b"/tmp/x.log".to_vec());
    assert!(c.encoding.is_none());
}

#[test]
fn text_record_is_message_and_newline() {
    let r = log_event_as_bytes_with_nl(&message_event("hello"), Some(BasicEncoding::Text));
    assert_eq!(r, b"hello\n".to_vec());
    let unset = log_event_as_bytes_with_nl(&message_event("hello"), None);
    assert_eq!(unset, b"hello\n".to_vec());
}

#[test]
fn text_record_without_message_is_empty_line() {
    let e = LogEvent {
        fields: vec![(b"host".to_vec(), b"h1".to_vec())],
    };
    assert_eq!(log_event_as_bytes_with_nl(&e, Some(BasicEncoding::Text)), b"\n".to_vec());
}

#[test]
fn json_record_holds_every_field() {
    let e = LogEvent {
        fields: vec![
            (b"message".to_vec(), b"hi \"there\"".to_vec()),
            (b"host".to_vec(), b"h1".to_vec()),
        ],
    };
    let r = log_event_as_bytes_with_nl(&e, Some(BasicEncoding::Json));
    assert_eq!(*r.last().unwrap(), b'\n');
    let v: serde_json::Value = serde_json::from_slice(&r[..r.len() - 1]).unwrap();
    assert_eq!(v.get("message").and_then(|v| v.as_str()), Some("hi \"there\""));
    assert_eq!(v.get("host").and_then(|v| v.as_str()), Some("h1"));
}

#[test]
fn sink_holds_back_until_open() {
    let mut sink = FileSink::new(b"a.log".to_vec());
    assert_eq!(sink.state(), SinkState::Opening);
    match sink.start_send(b"x\n".to_vec(), OpenPoll::Pending) {
        Ok(StartSend::NotReady(b)) => assert_eq!(b, b"x\n".to_vec()),
        other => panic!("unexpected {:?}", other),
    }
    assert_eq!(sink.poll_file(OpenPoll::Pending), Ok(Readiness::NotReady));
    assert_eq!(sink.poll_file(OpenPoll::Opened), Ok(Readiness::Ready));
    assert_eq!(sink.state(), SinkState::Connected);
    match sink.start_send(b"x\n".to_vec(), OpenPoll::Pending) {
        Ok(StartSend::Accepted(b)) => assert_eq!(b, b"x\n".to_vec()),
        other => panic!("unexpected {:?}", other),
    }
}

#[test]
fn open_failure_disconnects_for_good() {
    let mut sink = FileSink::new(b"a.log".to_vec());
    assert_eq!(
        sink.poll_file(OpenPoll::Failed("denied".to_string())),
        Err(SinkError::Open("denied".to_string()))
    );
    assert_eq!(sink.state(), SinkState::Disconnected);
    for _ in 0..3 {
        match sink.start_send(b"x\n".to_vec(), OpenPoll::Opened) {
            Err(e) => assert_eq!(e, disconnected()),
            other => panic!("unexpected {:?}", other),
        }
    }
    assert_eq!(sink.poll_complete(OpenPoll::Opened, IoPoll::Done), Err(SinkError::Disconnected));
    assert_eq!(
        sink.close(OpenPoll::Opened, IoPoll::Done, IoPoll::Done),
        Err(SinkError::Disconnected)
    );
    assert_eq!(sink.state(), SinkState::Disconnected);
}

#[test]
fn write_failure_disconnects_for_good() {
    let mut sink = FileSink::new(b"a.log".to_vec());
    assert!(matches!(
        sink.start_send(b"x\n".to_vec(), OpenPoll::Opened),
        Ok(StartSend::Accepted(_))
    ));
    assert_eq!(sink.poll_complete(OpenPoll::Pending, IoPoll::Pending), Ok(Readiness::NotReady));
    assert_eq!(
        sink.poll_complete(OpenPoll::Pending, IoPoll::Failed("disk full".to_string())),
        Err(SinkError::Write("disk full".to_string()))
    );
    match sink.start_send(b"y\n".to_vec(), OpenPoll::Opened) {
        Err(SinkError::Disconnected) => {}
        other => panic!("unexpected {:?}", other),
    }
}

#[test]
fn close_waits_for_flush_and_shutdown() {
    let mut sink = FileSink::new(b"a.log".to_vec());
    assert_eq!(sink.close(OpenPoll::Pending, IoPoll::Done, IoPoll::Done), Ok(Readiness::NotReady));
    assert_eq!(sink.close(OpenPoll::Opened, IoPoll::Pending, IoPoll::Done), Ok(Readiness::NotReady));
    assert_eq!(sink.close(OpenPoll::Opened, IoPoll::Done, IoPoll::Pending), Ok(Readiness::NotReady));
    assert_eq!(sink.close(OpenPoll::Opened, IoPoll::Done, IoPoll::Done), Ok(Readiness::Ready));
    assert_eq!(
        sink.close(OpenPoll::Opened, IoPoll::Done, IoPoll::Failed("io".to_string())),
        Err(SinkError::Write("io".to_string()))
    );
    assert_eq!(
        sink.close(OpenPoll::Opened, IoPoll::Done, IoPoll::Done),
        Err(SinkError::Disconnected)
    );
}

#[test]
fn encoding_sink_encodes_before_sending() {
    let mut sink = FileSink::new_with_encoding(b"e.log".to_vec(), Some(BasicEncoding::Text));
    let e = message_event("line one");
    match sink.start_send(e.clone(), OpenPoll::Pending) {
        Ok(EventSend::NotReady(back)) => assert_eq!(back, e),
        other => panic!("unexpected {:?}", other),
    }
    match sink.start_send(e, OpenPoll::Opened) {
        Ok(EventSend::Accepted(b)) => assert_eq!(b, b"line one\n".to_vec()),
        other => panic!("unexpected {:?}", other),
    }
    assert_eq!(sink.sink.state(), SinkState::Connected);
}
