use microbit_telemetry::TelemetryError;
use microbit_telemetry::framer::{RecordStatus, Session};
use microbit_telemetry::parser::Sample;
use microbit_telemetry::queue::CAPACITY;
use microbit_telemetry::sink::{AxisId, ButtonId, SinkCommand};

fn expected_commands() -> Vec<SinkCommand> {
    vec![
        SinkCommand::SetAxis(AxisId::X, 10),
        SinkCommand::SetAxis(AxisId::Y, -20),
        SinkCommand::SetButton(ButtonId::A, 1),
        SinkCommand::SetButton(ButtonId::B, 0),
        SinkCommand::Sync,
    ]
}

#[test]
fn one_chunk_record_dispatches_all_but_z() {
    let mut s = Session::open_session();
    let out = s.deliver(b"X:10,Y:-20,Z:30,A:1,B:0\n");
    assert!(!out.queue_overflow);
    assert_eq!(
        out.record,
        RecordStatus::Dispatched(Sample { x: 10, y: -20, z: 30, a: 1, b: 0 })
    );
    let sink = s.sink.as_ref().unwrap();
    assert_eq!(sink.axis_x, 10);
    assert_eq!(sink.axis_y, -20);
    assert_eq!(sink.button_a, 1);
    assert_eq!(sink.button_b, 0);
    // Exactly the four writes and one sync; Z is retained in the sample
    // but never forwarded to the sink.
    assert_eq!(sink.log, expected_commands());
}

#[test]
fn split_record_dispatches_identically() {
    let mut s = Session::open_session();
    let first = s.deliver(b"X:10,Y:-2");
    assert_eq!(first.record, RecordStatus::NoRecord);
    assert!(!first.queue_overflow);
    assert_eq!(s.queue.len(), 9);
    let second = s.deliver(b"0,Z:30,A:1,B:0\n");
    assert_eq!(
        second.record,
        RecordStatus::Dispatched(Sample { x: 10, y: -20, z: 30, a: 1, b: 0 })
    );
    assert_eq!(s.queue.len(), 0);
    assert_eq!(s.sink.as_ref().unwrap().log, expected_commands());
}

#[test]
fn byte_by_byte_delivery_dispatches_identically() {
    let record = b"X:10,Y:-20,Z:30,A:1,B:0\n";
    let mut s = Session::open_session();
    for (i, byte) in record.iter().enumerate() {
        let out = s.deliver(&[*byte]);
        if i + 1 < record.len() {
            assert_eq!(out.record, RecordStatus::NoRecord);
        } else {
            assert_eq!(
                out.record,
                RecordStatus::Dispatched(Sample { x: 10, y: -20, z: 30, a: 1, b: 0 })
            );
        }
    }
    assert_eq!(s.sink.as_ref().unwrap().log, expected_commands());
}

#[test]
fn invalid_value_record_dispatches_nothing() {
    let mut s = Session::open_session();
    let out = s.deliver(b"X:10,Y:abc,Z:30,A:0,B:0\n");
    assert_eq!(out.record, RecordStatus::Rejected(TelemetryError::InvalidValue));
    assert!(s.sink.as_ref().unwrap().log.is_empty());
}

#[test]
fn unknown_key_record_dispatches_nothing() {
    let mut s = Session::open_session();
    let out = s.deliver(b"Q:1\n");
    assert_eq!(out.record, RecordStatus::Rejected(TelemetryError::UnknownKey));
    assert!(s.sink.as_ref().unwrap().log.is_empty());
}

#[test]
fn terminatorless_flood_caps_the_queue() {
    let mut s = Session::open_session();
    let flood = vec![b'x'; 2000];
    let out = s.deliver(&flood);
    assert_eq!(out.record, RecordStatus::NoRecord);
    assert!(out.queue_overflow);
    assert_eq!(s.queue.len(), CAPACITY);
    assert!(s.sink.as_ref().unwrap().log.is_empty());
    // When a terminator finally arrives, the assembled record no longer
    // fits and is dropped as oversized; the queue is reset.
    let out = s.deliver(b"\n");
    assert_eq!(out.record, RecordStatus::Rejected(TelemetryError::OversizedRecord));
    assert_eq!(s.queue.len(), 0);
}

#[test]
fn two_terminators_yield_one_record_per_call() {
    let mut s = Session::open_session();
    let out = s.deliver(b"X:1,Y:2,Z:3,A:0,B:1\nX:9,Y:8,Z:7,A:1,B:0\n");
    assert_eq!(
        out.record,
        RecordStatus::Dispatched(Sample { x: 1, y: 2, z: 3, a: 0, b: 1 })
    );
    // The second record, its terminator included, waits in the queue.
    assert_eq!(s.queue.len(), 20);
    // The following call completes it.
    let out = s.deliver(b"\n");
    assert_eq!(
        out.record,
        RecordStatus::Dispatched(Sample { x: 9, y: 8, z: 7, a: 1, b: 0 })
    );
    assert_eq!(s.queue.len(), 0);
}

#[test]
fn carriage_return_before_terminator_is_stripped() {
    let mut s = Session::open_session();
    let out = s.deliver(b"X:1,Y:2,Z:3,A:1,B:0\r\n");
    assert_eq!(
        out.record,
        RecordStatus::Dispatched(Sample { x: 1, y: 2, z: 3, a: 1, b: 0 })
    );
}

#[test]
fn empty_record_is_a_format_error() {
    let mut s = Session::open_session();
    let out = s.deliver(b"\n");
    assert_eq!(out.record, RecordStatus::Rejected(TelemetryError::MissingValue));
}

#[test]
fn non_text_record_is_an_encoding_error() {
    let mut s = Session::open_session();
    // 0xFF never occurs in valid UTF-8, so the assembled record is not
    // text; a pipeline that skipped the text check would report an
    // invalid value instead.
    let out = s.deliver(&[b'X', b':', 0xFF, b'\n']);
    assert_eq!(out.record, RecordStatus::Rejected(TelemetryError::EncodingError));
    assert!(s.sink.as_ref().unwrap().log.is_empty());
}

#[test]
fn closed_session_reports_sink_unavailable() {
    let mut s = Session::open_session();
    s.deliver(b"X:1,Y");
    s.close_session();
    assert!(s.sink.is_none());
    // Closing discards the queued bytes too.
    assert_eq!(s.queue.len(), 0);
    let out = s.deliver(b"X:1,Y:2,Z:3,A:0,B:0\n");
    assert_eq!(out.record, RecordStatus::Rejected(TelemetryError::SinkUnavailable));
}

#[test]
fn errors_do_not_stop_the_next_record() {
    let mut s = Session::open_session();
    assert_eq!(
        s.deliver(b"Q:1\n").record,
        RecordStatus::Rejected(TelemetryError::UnknownKey)
    );
    let out = s.deliver(b"X:4,Y:5,Z:6,A:1,B:1\n");
    assert_eq!(
        out.record,
        RecordStatus::Dispatched(Sample { x: 4, y: 5, z: 6, a: 1, b: 1 })
    );
}

#[test]
fn record_filling_the_capacity_exactly_is_accepted() {
    let mut s = Session::open_session();
    // "X:" + 1021 zero digits + terminator: 1024 bytes in all.
    let mut chunk = b"X:".to_vec();
    chunk.extend(std::iter::repeat(b'0').take(1021));
    chunk.push(b'\n');
    assert_eq!(chunk.len(), CAPACITY);
    let out = s.deliver(&chunk);
    assert_eq!(
        out.record,
        RecordStatus::Dispatched(Sample { x: 0, y: 0, z: 0, a: 0, b: 0 })
    );
}

#[test]
fn record_one_byte_over_the_capacity_is_oversized() {
    let mut s = Session::open_session();
    let mut chunk = b"X:".to_vec();
    chunk.extend(std::iter::repeat(b'0').take(1022));
    chunk.push(b'\n');
    assert_eq!(chunk.len(), CAPACITY + 1);
    let out = s.deliver(&chunk);
    assert_eq!(out.record, RecordStatus::Rejected(TelemetryError::OversizedRecord));
    assert_eq!(s.queue.len(), 0);
}

#[test]
fn overflowing_remainder_reports_overflow_and_keeps_a_prefix() {
    let mut s = Session::open_session();
    let mut chunk = b"Q:0\n".to_vec();
    chunk.extend(std::iter::repeat(b'y').take(1500));
    let out = s.deliver(&chunk);
    // The record before the terminator is still processed...
    assert_eq!(out.record, RecordStatus::Rejected(TelemetryError::UnknownKey));
    // ...and the remainder overflows: the accepted prefix is kept.
    assert!(out.queue_overflow);
    assert_eq!(s.queue.len(), CAPACITY);
}

#[test]
fn oversized_record_still_queues_the_remainder() {
    let mut s = Session::open_session();
    // 1040 bytes, a terminator, then the start of the next record.
    let mut chunk = vec![b'x'; 1040];
    chunk.push(b'\n');
    chunk.extend_from_slice(b"X:7");
    let out = s.deliver(&chunk);
    assert_eq!(out.record, RecordStatus::Rejected(TelemetryError::OversizedRecord));
    assert_eq!(s.queue.len(), 3);
    let out = s.deliver(b",Y:8,Z:9,A:0,B:1\n");
    assert_eq!(
        out.record,
        RecordStatus::Dispatched(Sample { x: 7, y: 8, z: 9, a: 0, b: 1 })
    );
}
