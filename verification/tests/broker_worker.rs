use aulon::worker::{subject_error_text, EMIT_SCRATCH_CAPACITY, MAX_FRAME_SIZE, MAX_PAYLOAD_BYTES};
use aulon::writer::writer_step;
use aulon::{
    parse_frame, CloseReason, ConnectionId, Frame, ParseOutcome, Reader, SubjectError, Worker,
    WriterStep, DEFAULT_OUTBOUND_CAPACITY,
};

/// A connection that has been taken in and has read its greeting.
fn join(w: &mut Worker) -> Reader {
    let id = w.next_id();
    w.accept(id);
    w.greet(id);
    let greeting = drain(w, id);
    assert!(greeting.starts_with(b"INFO {\"server_id\":\"aulon\""));
    assert!(greeting.ends_with(b"}\r\n"));
    Reader::new(id)
}

/// Everything that a connection's writer has to write now.
fn drain(w: &mut Worker, id: ConnectionId) -> Vec<u8> {
    let mut out = Vec::new();
    let mut buf = [0u8; 4096];
    while let Some(WriterStep::Write(n)) = w.write_next(id, &mut buf) {
        out.extend_from_slice(&buf[..n]);
    }
    out
}

#[test]
fn the_greeting_parses_as_info() {
    let mut w = Worker::new();
    let id = w.next_id();
    w.accept(id);
    w.greet(id);
    let bytes = drain(&mut w, id);
    match parse_frame(&bytes) {
        ParseOutcome::Frame {
            frame: Frame::Info { options },
            consumed,
        } => {
            assert_eq!(consumed, bytes.len());
            assert_eq!(
                options,
                &br#"{"server_id":"aulon","server_name":"aulon","version":"0.0.1","host":"127.0.0.1","port":4222,"max_payload":1048576,"proto":1,"headers":false,"jetstream":false}"#[..]
            );
        }
        other => panic!("unexpected: {other:?}"),
    }
}

#[test]
fn a_ping_is_answered() {
    let mut w = Worker::new();
    let mut a = join(&mut w);
    assert!(w.receive(&mut a, b"CONNECT {}\r\nPING\r\nPONG\r\n"));
    assert_eq!(drain(&mut w, a.id()), b"PONG\r\n");
}

#[test]
fn a_message_reaches_its_subscribers_and_no_one_else() {
    let mut w = Worker::new();
    let mut a = join(&mut w);
    let mut b = join(&mut w);
    let mut c = join(&mut w);
    assert!(w.receive(&mut a, b"SUB foo.* 7\r\n"));
    assert!(w.receive(&mut b, b"SUB bar 8\r\n"));
    assert!(w.receive(&mut c, b"PUB foo.bar inbox 5\r\nhello\r\n"));
    assert_eq!(drain(&mut w, a.id()), b"MSG foo.bar 7 inbox 5\r\nhello\r\n");
    assert_eq!(drain(&mut w, b.id()), b"");
    assert_eq!(drain(&mut w, c.id()), b"");
}

#[test]
fn a_publisher_reaches_itself() {
    let mut w = Worker::new();
    let mut a = join(&mut w);
    assert!(w.receive(&mut a, b"SUB foo 1\r\nPUB foo 2\r\nhi\r\n"));
    assert_eq!(drain(&mut w, a.id()), b"MSG foo 1 2\r\nhi\r\n");
}

#[test]
fn an_unmatched_publish_is_silent() {
    let mut w = Worker::new();
    let mut a = join(&mut w);
    while w.next_woken().is_some() {}
    assert!(w.receive(&mut a, b"PUB nobody 0\r\n\r\n"));
    assert_eq!(drain(&mut w, a.id()), b"");
    assert!(w.next_woken().is_none());
}

#[test]
fn unsubscribing_ends_the_delivery() {
    let mut w = Worker::new();
    let mut a = join(&mut w);
    assert!(w.receive(&mut a, b"SUB foo 1\r\nSUB foo 2\r\nUNSUB 1\r\nUNSUB 9\r\n"));
    assert!(w.receive(&mut a, b"PUB foo 0\r\n\r\n"));
    assert_eq!(drain(&mut w, a.id()), b"MSG foo 2 0\r\n\r\n");
}

#[test]
fn one_member_of_each_queue_group_is_served() {
    let mut w = Worker::new();
    let mut readers: Vec<Reader> = Vec::new();
    for i in 0..6usize {
        let mut r = join(&mut w);
        let line: &[u8] = if i < 3 {
            b"SUB job g1 1\r\n"
        } else if i < 5 {
            b"SUB job g2 1\r\n"
        } else {
            b"SUB job 1\r\n"
        };
        assert!(w.receive(&mut r, line));
        readers.push(r);
    }
    let mut served = [0u32; 6];
    for _ in 0..200 {
        assert!(w.receive(&mut readers[0], b"PUB job 1\r\nx\r\n"));
        let mut now = [false; 6];
        for (i, r) in readers.iter().enumerate() {
            let got = drain(&mut w, r.id());
            if !got.is_empty() {
                assert_eq!(got, b"MSG job 1 1\r\nx\r\n");
                now[i] = true;
                served[i] += 1;
            }
        }
        assert_eq!(now[..3].iter().filter(|x| **x).count(), 1);
        assert_eq!(now[3..5].iter().filter(|x| **x).count(), 1);
        assert!(now[5]);
    }
    // Everyone has a turn.
    assert!(served.iter().all(|n| *n > 20));
}

#[test]
fn refusals_are_answered_and_leave_the_connection_open() {
    let mut w = Worker::new();
    let mut a = join(&mut w);
    assert!(w.receive(&mut a, b"SUB foo..bar 1\r\n"));
    assert_eq!(drain(&mut w, a.id()), b"-ERR invalid subject\r\n");
    assert!(w.receive(&mut a, b"SUB a.>.b 1\r\n"));
    assert_eq!(drain(&mut w, a.id()), b"-ERR invalid subject\r\n");
    assert!(w.receive(&mut a, b"PUB .foo 0\r\n\r\n"));
    assert_eq!(drain(&mut w, a.id()), b"-ERR empty token in subject\r\n");
    assert!(w.receive(&mut a, b"PUB foo.* 0\r\n\r\n"));
    assert_eq!(
        drain(&mut w, a.id()),
        b"-ERR wildcard not allowed in publish subject\r\n"
    );
    assert!(w.receive(&mut a, b"UNSUB 1 5\r\n"));
    assert_eq!(
        drain(&mut w, a.id()),
        b"-ERR UNSUB max_msgs not supported\r\n"
    );
    assert!(w.receive(&mut a, b"+OK\r\nINFO {}\r\n"));
    assert_eq!(
        drain(&mut w, a.id()),
        b"-ERR unexpected verb\r\n-ERR unexpected verb\r\n"
    );
    assert!(w.receive(&mut a, b"PING\r\n"));
    assert_eq!(drain(&mut w, a.id()), b"PONG\r\n");
}

#[test]
fn subject_errors_have_their_texts() {
    assert_eq!(subject_error_text(SubjectError::Empty), b"empty subject");
    assert_eq!(
        subject_error_text(SubjectError::EmptyToken),
        b"empty token in subject"
    );
    assert_eq!(
        subject_error_text(SubjectError::WildcardInPublish),
        b"wildcard not allowed in publish subject"
    );
    assert_eq!(
        subject_error_text(SubjectError::InvalidGreaterPosition),
        b"`>` must be the last token"
    );
}

#[test]
fn too_large_a_payload_is_refused() {
    let mut w = Worker::new();
    let mut a = join(&mut w);
    let n = MAX_PAYLOAD_BYTES + 1;
    let mut frame = format!("PUB foo {n}\r\n").into_bytes();
    frame.resize(frame.len() + n, b'x');
    frame.extend_from_slice(b"\r\n");
    for chunk in frame.chunks(65536) {
        assert!(w.receive(&mut a, chunk));
    }
    assert_eq!(drain(&mut w, a.id()), b"-ERR maximum payload exceeded\r\n");
}

#[test]
fn how_the_bytes_are_cut_does_not_matter() {
    let bytes = b"SUB foo 1\r\nPING\r\nPUB foo 5\r\nhello\r\nUNSUB 1\r\nPUB foo 1\r\nx\r\n";
    for size in 1..bytes.len() {
        let mut w = Worker::new();
        let mut a = join(&mut w);
        for chunk in bytes.chunks(size) {
            assert!(w.receive(&mut a, chunk));
        }
        assert_eq!(
            drain(&mut w, a.id()),
            b"PONG\r\nMSG foo 1 5\r\nhello\r\n",
            "chunks of {size}"
        );
    }
}

#[test]
fn a_malformed_frame_cuts_the_connection_off() {
    let mut w = Worker::new();
    let mut a = join(&mut w);
    let id = a.id();
    assert!(!w.receive(&mut a, b"PING\r\nGET / HTTP/1.1\r\nPING\r\n"));
    let mut buf = [0u8; 4096];
    assert_eq!(w.write_next(id, &mut buf), Some(WriterStep::Write(6)));
    assert_eq!(&buf[..6], b"PONG\r\n");
    assert_eq!(w.write_next(id, &mut buf), Some(WriterStep::Finish(21)));
    assert_eq!(&buf[..21], b"-ERR protocol error\r\n");
}

#[test]
fn a_flood_cuts_the_connection_off() {
    let mut w = Worker::new();
    let mut a = join(&mut w);
    let chunk = [b'x'; 65536];
    let mut sent = 0usize;
    loop {
        sent += chunk.len();
        let open = w.receive(&mut a, &chunk);
        assert_eq!(open, sent <= MAX_FRAME_SIZE);
        if !open {
            break;
        }
    }
    let state = w.disconnect(a).expect("the connection was live");
    assert_eq!(state.close_reason(), Some(CloseReason::ProtocolError));
}

#[test]
fn a_slow_consumer_is_cut_off_alone() {
    let mut w = Worker::new();
    let mut slow = join(&mut w);
    let mut quick = join(&mut w);
    let mut publisher = join(&mut w);
    assert!(w.receive(&mut slow, b"SUB foo 1\r\n"));
    assert!(w.receive(&mut quick, b"SUB foo 1\r\n"));
    let mut frame = b"PUB foo 60000\r\n".to_vec();
    frame.resize(frame.len() + 60000, b'x');
    frame.extend_from_slice(b"\r\n");
    let message = 60000 + b"MSG foo 1 60000\r\n\r\n".len();
    let fits = DEFAULT_OUTBOUND_CAPACITY / message;
    for _ in 0..fits + 1 {
        assert!(w.receive(&mut publisher, &frame));
        assert_eq!(drain(&mut w, quick.id()).len(), message);
    }
    // The slow one is closing; what it was sent before stays.
    assert!(!w.receive(&mut slow, b"PING\r\n"));
    let mut state = w.disconnect(slow).unwrap();
    assert_eq!(state.close_reason(), Some(CloseReason::SlowConsumer));
    assert_eq!(state.pending_bytes(), fits * message);
    let mut buf = vec![0u8; DEFAULT_OUTBOUND_CAPACITY];
    assert_eq!(
        writer_step(&mut state, &mut buf),
        WriterStep::Write(fits * message)
    );
    assert_eq!(state.close_reason(), Some(CloseReason::SlowConsumer));
    assert_eq!(writer_step(&mut state, &mut buf), WriterStep::Finish(20));
    assert_eq!(&buf[..20], b"-ERR slow consumer\r\n");
    assert_eq!(state.close_reason(), None);
}

#[test]
fn a_message_that_cannot_be_encoded_is_left_out() {
    let mut w = Worker::new();
    let mut a = join(&mut w);
    let subject = "s".repeat(5000);
    let sub = format!("SUB {subject} 1\r\n").into_bytes();
    assert!(w.receive(&mut a, &sub));
    let mut frame = format!("PUB {subject} {MAX_PAYLOAD_BYTES}\r\n").into_bytes();
    frame.resize(frame.len() + MAX_PAYLOAD_BYTES, b'x');
    frame.extend_from_slice(b"\r\n");
    assert!(frame.len() > EMIT_SCRATCH_CAPACITY);
    assert!(w.receive(&mut a, &frame));
    assert_eq!(drain(&mut w, a.id()), b"");
}

#[test]
fn a_disconnect_leaves_nothing_behind() {
    let mut w = Worker::new();
    let mut a = join(&mut w);
    let mut b = join(&mut w);
    let a_id = a.id();
    assert!(w.receive(&mut a, b"SUB foo 1\r\nSUB bar.> 2\r\nSUB foo 3\r\n"));
    assert!(w.receive(&mut b, b"SUB foo 1\r\n"));
    let state = w.disconnect(a).expect("the connection was live");
    assert_eq!(state.id(), a_id);
    assert_eq!(state.close_reason(), Some(CloseReason::PeerClosed));
    let mut buf = [0u8; 64];
    assert_eq!(w.write_next(a_id, &mut buf), None);
    assert!(w.receive(&mut b, b"PUB foo 0\r\n\r\nPUB bar.baz 0\r\n\r\n"));
    assert_eq!(drain(&mut w, b.id()), b"MSG foo 1 0\r\n\r\n");
}

#[test]
fn a_sid_on_a_second_subject_leaves_nothing_behind() {
    let mut w = Worker::new();
    let mut a = join(&mut w);
    let mut b = join(&mut w);
    assert!(w.receive(&mut a, b"SUB a 7\r\nSUB b 7\r\nSUB b 7\r\nUNSUB 7\r\n"));
    assert!(w.receive(&mut b, b"SUB a 7\r\nPUB a 0\r\n\r\nPUB b 0\r\n\r\n"));
    assert_eq!(
        drain(&mut w, a.id()),
        b"MSG a 7 0\r\n\r\nMSG b 7 0\r\n\r\n"
    );
    assert_eq!(drain(&mut w, b.id()), b"MSG a 7 0\r\n\r\n");
    let id = a.id();
    assert!(w.disconnect(a).is_some());
    // Another connection under the same id starts with nothing.
    w.accept(id);
    assert!(w.receive(&mut b, b"PUB a 0\r\n\r\nPUB b 0\r\n\r\n"));
    assert_eq!(drain(&mut w, id), b"");
    assert_eq!(drain(&mut w, b.id()), b"MSG a 7 0\r\n\r\n");
}

#[test]
fn the_last_step_of_a_writer_clears_the_reason() {
    let mut w = Worker::new();
    let mut a = join(&mut w);
    let id = a.id();
    assert!(!w.receive(&mut a, b"nonsense\r\n"));
    let mut buf = [0u8; 64];
    assert_eq!(w.write_next(id, &mut buf), Some(WriterStep::Finish(21)));
    assert_eq!(w.write_next(id, &mut buf), Some(WriterStep::Wait));
    let state = w.disconnect(a).unwrap();
    assert_eq!(state.close_reason(), Some(CloseReason::PeerClosed));
}

#[test]
fn what_is_pending_survives_a_disconnect() {
    let mut w = Worker::new();
    let mut a = join(&mut w);
    assert!(w.receive(&mut a, b"PING\r\n"));
    let mut state = w.disconnect(a).unwrap();
    assert_eq!(state.pending_bytes(), 6);
    let mut buf = [0u8; 64];
    assert_eq!(state.drain_into(&mut buf), 6);
    assert_eq!(&buf[..6], b"PONG\r\n");
}

#[test]
fn a_disconnect_of_a_connection_that_is_not_live_gives_nothing() {
    let mut w = Worker::new();
    let a = join(&mut w);
    let again = Reader::new(a.id());
    assert!(w.disconnect(a).is_some());
    assert!(w.disconnect(again).is_none());
}

#[test]
fn ids_count_up() {
    let mut w = Worker::new();
    for i in 0..5 {
        let id = w.next_id();
        assert_eq!(id, ConnectionId::new(i));
        assert!(!w.is_live(id));
        w.accept(id);
        assert!(w.is_live(id));
    }
}

#[test]
fn a_whole_session_is_the_same_however_it_is_cut() {
    let payload = vec![b'x'; 5000];
    let mut sent: Vec<u8> = b"CONNECT {}\r\nSUB a.* 1\r\nSUB a.> g 2\r\nPING\r\n".to_vec();
    sent.extend_from_slice(b"PUB a.b back 5000\r\n");
    sent.extend_from_slice(&payload);
    sent.extend_from_slice(b"\r\nUNSUB 1\r\nSUB .. 3\r\nPUB a.c 2\r\n\r\n\r\nPING\r\n");
    let mut want: Vec<u8> = b"PONG\r\n".to_vec();
    for sid in ["1", "2"] {
        want.extend_from_slice(format!("MSG a.b {sid} back 5000\r\n").as_bytes());
        want.extend_from_slice(&payload);
        want.extend_from_slice(b"\r\n");
    }
    want.extend_from_slice(b"-ERR invalid subject\r\nMSG a.c 2 2\r\n\r\n\r\nPONG\r\n");
    for size in [1, 2, 3, 7, 64, 1000, 4096, sent.len()] {
        let mut w = Worker::new();
        let mut a = join(&mut w);
        for chunk in sent.chunks(size) {
            assert!(w.receive(&mut a, chunk));
        }
        assert_eq!(drain(&mut w, a.id()), want);
        let state = w.disconnect(a).unwrap();
        assert_eq!(state.close_reason(), Some(CloseReason::PeerClosed));
    }
}

#[test]
fn writers_are_woken_for_what_they_have_to_write() {
    let mut w = Worker::new();
    let mut a = join(&mut w);
    let mut b = join(&mut w);
    while w.next_woken().is_some() {}
    assert!(w.receive(&mut a, b"SUB foo 1\r\n"));
    assert!(w.next_woken().is_none());
    assert!(w.receive(&mut b, b"PUB foo 0\r\n\r\n"));
    assert_eq!(w.next_woken(), Some(a.id()));
    assert!(w.next_woken().is_none());
    assert!(!w.receive(&mut b, b"nonsense\r\n"));
    assert_eq!(w.next_woken(), Some(b.id()));
    assert!(w.next_woken().is_none());
}
