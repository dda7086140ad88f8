use aulon::emit::write_decimal_u64;
use aulon::{
    emit_connect, emit_err, emit_frame, emit_info, emit_msg, emit_ok, emit_ping, emit_pong,
    emit_pub, emit_sub, emit_unsub, parse_frame, EmitError, Frame, ParseOutcome,
};

fn round_trip(frame: &Frame<'_>) {
    let mut buf = [0u8; 8192];
    let n = emit_frame(&mut buf, frame).expect("emit");
    let parsed = match parse_frame(&buf[..n]) {
        ParseOutcome::Frame { frame, consumed } => {
            assert_eq!(consumed, n, "consumed must match emitted length");
            frame
        }
        other => panic!("re-parse failed: {other:?}"),
    };
    assert_eq!(&parsed, frame);
}

#[test]
fn round_trip_ping_pong_ok() {
    round_trip(&Frame::Ping);
    round_trip(&Frame::Pong);
    round_trip(&Frame::Ack);
}

#[test]
fn round_trip_err() {
    round_trip(&Frame::Error {
        message: b"slow consumer",
    });
}

#[test]
fn round_trip_connect_info() {
    round_trip(&Frame::Connect {
        options: b"{\"verbose\":false}",
    });
    round_trip(&Frame::Info {
        options: b"{\"server_id\":\"x\"}",
    });
}

#[test]
fn round_trip_sub_with_and_without_queue() {
    round_trip(&Frame::Sub {
        subject: b"foo.bar",
        queue_group: None,
        sid: b"7",
    });
    round_trip(&Frame::Sub {
        subject: b"foo.bar",
        queue_group: Some(b"workers"),
        sid: b"7",
    });
}

#[test]
fn round_trip_unsub() {
    round_trip(&Frame::Unsub {
        sid: b"7",
        max_msgs: None,
    });
    round_trip(&Frame::Unsub {
        sid: b"7",
        max_msgs: Some(12),
    });
}

#[test]
fn round_trip_pub() {
    round_trip(&Frame::Pub {
        subject: b"foo",
        reply_to: None,
        payload: b"hello",
    });
    round_trip(&Frame::Pub {
        subject: b"foo",
        reply_to: Some(b"INBOX.42"),
        payload: b"hello",
    });
    round_trip(&Frame::Pub {
        subject: b"foo",
        reply_to: None,
        payload: b"",
    });
}

#[test]
fn round_trip_msg() {
    round_trip(&Frame::Msg {
        subject: b"foo",
        sid: b"7",
        reply_to: None,
        payload: b"hello",
    });
    round_trip(&Frame::Msg {
        subject: b"foo",
        sid: b"7",
        reply_to: Some(b"INBOX.42"),
        payload: b"hello",
    });
}

#[test]
fn buffer_too_small_returns_error() {
    let mut buf = [0u8; 4];
    let res = emit_ping(&mut buf);
    assert!(matches!(res, Err(EmitError::BufferTooSmall { .. })));
}

#[test]
fn decimal_writer_handles_zero_and_max() {
    let mut buf = [0u8; 32];
    let n = write_decimal_u64(&mut buf, 0, 0).unwrap();
    assert_eq!(&buf[..n], b"0");
    let mut buf = [0u8; 32];
    let n = write_decimal_u64(&mut buf, 0, u64::MAX).unwrap();
    assert_eq!(&buf[..n], b"18446744073709551615");
}

#[test]
fn each_frame_has_its_bytes_on_the_wire() {
    let mut buf = [0u8; 64];
    let n = emit_ping(&mut buf).unwrap();
    assert_eq!(&buf[..n], b"PING\r\n");
    let n = emit_pong(&mut buf).unwrap();
    assert_eq!(&buf[..n], b"PONG\r\n");
    let n = emit_ok(&mut buf).unwrap();
    assert_eq!(&buf[..n], b"+OK\r\n");
    let n = emit_err(&mut buf, b"no").unwrap();
    assert_eq!(&buf[..n], b"-ERR no\r\n");
    let n = emit_info(&mut buf, b"{}").unwrap();
    assert_eq!(&buf[..n], b"INFO {}\r\n");
    let n = emit_connect(&mut buf, b"{}").unwrap();
    assert_eq!(&buf[..n], b"CONNECT {}\r\n");
    let n = emit_sub(&mut buf, b"foo", Some(b"q"), b"7").unwrap();
    assert_eq!(&buf[..n], b"SUB foo q 7\r\n");
    let n = emit_sub(&mut buf, b"foo", None, b"7").unwrap();
    assert_eq!(&buf[..n], b"SUB foo 7\r\n");
    let n = emit_unsub(&mut buf, b"7", Some(120)).unwrap();
    assert_eq!(&buf[..n], b"UNSUB 7 120\r\n");
    let n = emit_unsub(&mut buf, b"7", None).unwrap();
    assert_eq!(&buf[..n], b"UNSUB 7\r\n");
    let n = emit_pub(&mut buf, b"foo", Some(b"r"), b"hello").unwrap();
    assert_eq!(&buf[..n], b"PUB foo r 5\r\nhello\r\n");
    let n = emit_msg(&mut buf, b"foo", b"7", None, b"0123456789").unwrap();
    assert_eq!(&buf[..n], b"MSG foo 7 10\r\n0123456789\r\n");
}

#[test]
fn a_short_buffer_keeps_what_fitted() {
    // "PUB " and "foo" fit, the space behind them does not.
    let mut buf = [b'#'; 7];
    assert_eq!(
        emit_pub(&mut buf, b"foo", None, b"x"),
        Err(EmitError::BufferTooSmall {
            needed: 14,
            have: 7
        })
    );
    assert_eq!(&buf, b"PUB foo");
    let mut buf = [b'#'; 6];
    assert_eq!(
        emit_pub(&mut buf, b"foo", None, b"x"),
        Err(EmitError::BufferTooSmall {
            needed: 14,
            have: 6
        })
    );
    assert_eq!(&buf, b"PUB ##");
}

#[test]
fn a_short_buffer_is_told_what_the_frame_requires() {
    let mut tiny = [0u8; 2];
    assert_eq!(
        emit_err(&mut tiny, b"slow consumer"),
        Err(EmitError::BufferTooSmall {
            needed: 20,
            have: 2
        })
    );
    let frames = [
        Frame::Ping,
        Frame::Pong,
        Frame::Ack,
        Frame::Error { message: b"no" },
        Frame::Info { options: b"{}" },
        Frame::Connect { options: b"{}" },
        Frame::Sub {
            subject: b"foo",
            queue_group: None,
            sid: b"7",
        },
        Frame::Sub {
            subject: b"foo",
            queue_group: Some(b"workers"),
            sid: b"7",
        },
        Frame::Unsub {
            sid: b"7",
            max_msgs: None,
        },
        Frame::Unsub {
            sid: b"7",
            max_msgs: Some(u64::MAX),
        },
        Frame::Pub {
            subject: b"foo",
            reply_to: None,
            payload: b"",
        },
        Frame::Pub {
            subject: b"foo",
            reply_to: Some(b"inbox"),
            payload: &[b'x'; 100],
        },
        Frame::Msg {
            subject: b"foo",
            sid: b"7",
            reply_to: None,
            payload: &[b'x'; 9],
        },
        Frame::Msg {
            subject: b"foo",
            sid: b"7",
            reply_to: Some(b"inbox"),
            payload: &[b'x'; 10],
        },
    ];
    for frame in &frames {
        let mut buf = [0u8; 256];
        let n = emit_frame(&mut buf, frame).expect("large enough");
        for have in 0..n {
            assert_eq!(
                emit_frame(&mut buf[..have], frame),
                Err(EmitError::BufferTooSmall { needed: n, have })
            );
        }
        assert_eq!(emit_frame(&mut buf[..n], frame), Ok(n));
    }
}

#[test]
fn what_is_behind_the_frame_is_untouched() {
    let mut buf = [b'#'; 9];
    assert_eq!(emit_pong(&mut buf), Ok(6));
    assert_eq!(&buf, b"PONG\r\n###");
}

#[test]
fn emit_short_buffer_returns_err_not_panic() {
    let mut tiny = [0u8; 2];
    let message = b"message";
    assert!(emit_err(&mut tiny, message).is_err());
    assert!(emit_info(&mut tiny, message).is_err());
    assert!(emit_connect(&mut tiny, message).is_err());
    assert!(emit_sub(&mut tiny, message, None, b"7").is_err());
    assert!(emit_unsub(&mut tiny, b"7", Some(12)).is_err());
    assert!(emit_pub(&mut tiny, b"foo", None, message).is_err());
    assert!(emit_msg(&mut tiny, b"foo", b"7", None, message).is_err());
}

#[test]
fn emit_errors_describe_themselves() {
    let e = EmitError::BufferTooSmall {
        needed: 120,
        have: 0,
    };
    assert_eq!(e.describe(), "buffer too small: needed 120, have 0");
}

/// A small random source, so that the cases are the same on every run.
struct Source(u64);

impl Source {
    fn next(&mut self) -> u64 {
        self.0 ^= self.0 << 13;
        self.0 ^= self.0 >> 7;
        self.0 ^= self.0 << 17;
        self.0
    }

    fn token(&mut self) -> Vec<u8> {
        let alphabet = b"ABCabc019._-*>";
        let len = 1 + self.next() % 64;
        let mut v = Vec::new();
        for _ in 0..len {
            v.push(alphabet[(self.next() % alphabet.len() as u64) as usize]);
        }
        v
    }

    fn line(&mut self) -> Vec<u8> {
        let len = 1 + self.next() % 128;
        let mut v = Vec::new();
        for _ in 0..len {
            v.push((0x20 + self.next() % 0x5f) as u8);
        }
        v
    }

    fn payload(&mut self) -> Vec<u8> {
        let len = self.next() % 513;
        let mut v = Vec::new();
        for _ in 0..len {
            v.push(self.next() as u8);
        }
        v
    }
}

#[test]
fn random_legal_frames_round_trip() {
    let mut s = Source(0x1234_5678_9abc_def1);
    for _ in 0..256 {
        let (a, b, c) = (s.token(), s.token(), s.token());
        let line = s.line();
        let payload = s.payload();
        let some = s.next() % 2 == 0;
        round_trip(&Frame::Error { message: &line });
        round_trip(&Frame::Connect { options: &line });
        round_trip(&Frame::Info { options: &line });
        round_trip(&Frame::Sub {
            subject: &a,
            queue_group: if some { Some(&b) } else { None },
            sid: &c,
        });
        round_trip(&Frame::Unsub {
            sid: &a,
            max_msgs: if some { Some(s.next()) } else { None },
        });
        round_trip(&Frame::Pub {
            subject: &a,
            reply_to: if some { Some(&b) } else { None },
            payload: &payload,
        });
        round_trip(&Frame::Msg {
            subject: &a,
            sid: &b,
            reply_to: if some { Some(&c) } else { None },
            payload: &payload,
        });
    }
}

#[test]
fn a_parsed_frame_is_emitted_and_parsed_again() {
    // Extra blanks and leading zeros go; the frame stays the same.
    let input = b"PUB  foo\t005\r\nhello\r\n";
    let ParseOutcome::Frame { frame, consumed } = parse_frame(input) else {
        panic!("parse failed");
    };
    assert_eq!(consumed, input.len());
    let mut buf = [0u8; 64];
    let n = emit_frame(&mut buf, &frame).unwrap();
    assert_eq!(&buf[..n], b"PUB foo 5\r\nhello\r\n");
    round_trip(&frame);
}
