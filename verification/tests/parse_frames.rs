use aulon::{parse_frame, Frame, ParseError, ParseOutcome};

fn parse_complete(input: &[u8]) -> Frame<'_> {
    match parse_frame(input) {
        ParseOutcome::Frame { frame, consumed } => {
            assert_eq!(consumed, input.len(), "consumed should match input length");
            frame
        }
        other => panic!("expected Frame, got {other:?}"),
    }
}

#[test]
fn ping_pong_ok() {
    assert_eq!(parse_complete(b"PING\r\n"), Frame::Ping);
    assert_eq!(parse_complete(b"PONG\r\n"), Frame::Pong);
    assert_eq!(parse_complete(b"+OK\r\n"), Frame::Ack);
}

#[test]
fn err_carries_message() {
    assert_eq!(
        parse_complete(b"-ERR slow consumer\r\n"),
        Frame::Error {
            message: b"slow consumer"
        }
    );
}

#[test]
fn connect_carries_options_bytes() {
    let f = parse_complete(b"CONNECT {\"verbose\":false}\r\n");
    let Frame::Connect { options } = f else {
        panic!("expected Connect, got {f:?}");
    };
    assert_eq!(options, b"{\"verbose\":false}");
}

#[test]
fn info_carries_options_bytes() {
    let f = parse_complete(b"INFO {\"server_id\":\"x\"}\r\n");
    let Frame::Info { options } = f else {
        panic!("expected Info, got {f:?}");
    };
    assert_eq!(options, b"{\"server_id\":\"x\"}");
}

#[test]
fn sub_without_queue() {
    assert_eq!(
        parse_complete(b"SUB foo.bar 7\r\n"),
        Frame::Sub {
            subject: b"foo.bar",
            queue_group: None,
            sid: b"7",
        }
    );
}

#[test]
fn sub_with_queue() {
    assert_eq!(
        parse_complete(b"SUB foo.bar workers 7\r\n"),
        Frame::Sub {
            subject: b"foo.bar",
            queue_group: Some(b"workers"),
            sid: b"7",
        }
    );
}

#[test]
fn unsub_without_max_msgs() {
    assert_eq!(
        parse_complete(b"UNSUB 7\r\n"),
        Frame::Unsub {
            sid: b"7",
            max_msgs: None,
        }
    );
}

#[test]
fn unsub_with_max_msgs() {
    assert_eq!(
        parse_complete(b"UNSUB 7 12\r\n"),
        Frame::Unsub {
            sid: b"7",
            max_msgs: Some(12),
        }
    );
}

#[test]
fn pub_without_reply() {
    assert_eq!(
        parse_complete(b"PUB foo 5\r\nhello\r\n"),
        Frame::Pub {
            subject: b"foo",
            reply_to: None,
            payload: b"hello",
        }
    );
}

#[test]
fn pub_with_reply() {
    assert_eq!(
        parse_complete(b"PUB foo INBOX.42 5\r\nhello\r\n"),
        Frame::Pub {
            subject: b"foo",
            reply_to: Some(b"INBOX.42"),
            payload: b"hello",
        }
    );
}

#[test]
fn msg_without_reply() {
    assert_eq!(
        parse_complete(b"MSG foo 7 5\r\nhello\r\n"),
        Frame::Msg {
            subject: b"foo",
            sid: b"7",
            reply_to: None,
            payload: b"hello",
        }
    );
}

#[test]
fn msg_with_reply() {
    assert_eq!(
        parse_complete(b"MSG foo 7 INBOX.42 5\r\nhello\r\n"),
        Frame::Msg {
            subject: b"foo",
            sid: b"7",
            reply_to: Some(b"INBOX.42"),
            payload: b"hello",
        }
    );
}

#[test]
fn empty_payload_is_legal() {
    assert_eq!(
        parse_complete(b"PUB foo 0\r\n\r\n"),
        Frame::Pub {
            subject: b"foo",
            reply_to: None,
            payload: b"",
        }
    );
}

#[test]
fn need_more_when_header_truncated() {
    assert_eq!(parse_frame(b"PIN"), ParseOutcome::NeedMore);
    assert_eq!(parse_frame(b"PUB foo 5\r\nhel"), ParseOutcome::NeedMore);
    assert_eq!(
        parse_frame(b"PUB foo 5\r\nhello"),
        ParseOutcome::NeedMore,
        "trailing CRLF not yet present"
    );
}

#[test]
fn unknown_verb_fails() {
    assert!(matches!(
        parse_frame(b"WAT\r\n"),
        ParseOutcome::Error(ParseError::UnknownVerb)
    ));
}

#[test]
fn missing_trailing_crlf_after_full_payload() {
    // Payload length satisfied but the two bytes after the payload
    // are not "\r\n".
    let buf = b"PUB foo 5\r\nhelloXY";
    assert!(matches!(
        parse_frame(buf),
        ParseOutcome::Error(ParseError::MissingTrailingCrlf)
    ));
}

#[test]
fn ping_with_extra_bytes_is_bad_header() {
    assert!(matches!(
        parse_frame(b"PING junk\r\n"),
        ParseOutcome::Error(ParseError::BadHeader)
    ));
}

#[test]
fn parses_back_to_back_frames() {
    let buf = b"PING\r\nPONG\r\n";
    let ParseOutcome::Frame { frame, consumed } = parse_frame(buf) else {
        panic!("first parse failed");
    };
    assert_eq!(frame, Frame::Ping);
    assert_eq!(consumed, 6);
    let rest = &buf[consumed..];
    let ParseOutcome::Frame { frame, consumed } = parse_frame(rest) else {
        panic!("second parse failed");
    };
    assert_eq!(frame, Frame::Pong);
    assert_eq!(consumed, 6);
}

#[test]
fn invalid_payload_length_rejected() {
    assert!(matches!(
        parse_frame(b"PUB foo abc\r\n"),
        ParseOutcome::Error(ParseError::PayloadLengthInvalid)
    ));
}

#[test]
fn invalid_max_msgs_rejected() {
    assert!(matches!(
        parse_frame(b"UNSUB 7 abc\r\n"),
        ParseOutcome::Error(ParseError::MaxMsgsInvalid)
    ));
}

#[test]
fn wrong_arity_is_bad_header() {
    for input in [
        &b"SUB foo\r\n"[..],
        b"SUB a b c d\r\n",
        b"UNSUB\r\n",
        b"UNSUB 7 1 2\r\n",
        b"PUB foo\r\n",
        b"PUB a b 1 2\r\n",
        b"MSG a b\r\n",
        b"MSG a b c 1 2\r\n",
        b"CONNECT\r\n",
        b"CONNECT \r\n",
        b"INFO\r\n",
        b"PONG x\r\n",
        b"+OK x\r\n",
    ] {
        assert_eq!(
            parse_frame(input),
            ParseOutcome::Error(ParseError::BadHeader),
            "{input:?}"
        );
    }
}

#[test]
fn count_is_checked_before_arity_of_unsub() {
    assert_eq!(
        parse_frame(b"UNSUB 7 x y\r\n"),
        ParseOutcome::Error(ParseError::MaxMsgsInvalid)
    );
}

#[test]
fn numbers_that_do_not_fit_are_rejected() {
    assert_eq!(
        parse_frame(b"UNSUB 7 18446744073709551616\r\n"),
        ParseOutcome::Error(ParseError::MaxMsgsInvalid)
    );
    assert_eq!(
        parse_complete(b"UNSUB 7 18446744073709551615\r\n"),
        Frame::Unsub {
            sid: b"7",
            max_msgs: Some(u64::MAX)
        }
    );
    assert_eq!(
        parse_frame(b"PUB foo 99999999999999999999999\r\n"),
        ParseOutcome::Error(ParseError::PayloadLengthInvalid)
    );
    // The count fits, the whole frame does not.
    let head = format!("PUB foo {}\r\n", usize::MAX);
    assert_eq!(
        parse_frame(head.as_bytes()),
        ParseOutcome::Error(ParseError::PayloadLengthInvalid)
    );
}

#[test]
fn blanks_and_tabs_separate_fields() {
    assert_eq!(
        parse_complete(b"SUB \t foo   7 \t\r\n"),
        Frame::Sub {
            subject: b"foo",
            queue_group: None,
            sid: b"7",
        }
    );
    assert_eq!(
        parse_complete(b"-ERR  two spaces\r\n"),
        Frame::Error {
            message: b" two spaces"
        }
    );
    assert_eq!(parse_complete(b"-ERR\r\n"), Frame::Error { message: b"" });
}

#[test]
fn verbs_are_upper_case_only() {
    assert_eq!(
        parse_frame(b"ping\r\n"),
        ParseOutcome::Error(ParseError::UnknownVerb)
    );
}

#[test]
fn a_lone_carriage_return_ends_no_line() {
    assert_eq!(parse_frame(b"PING\r"), ParseOutcome::NeedMore);
    assert_eq!(
        parse_complete(b"-ERR a\rb\nc\r\r\n"),
        Frame::Error {
            message: b"a\rb\nc\r"
        }
    );
}

#[test]
fn more_bytes_do_not_change_an_outcome() {
    for (input, tail) in [
        (&b"PING\r\n"[..], &b"anything"[..]),
        (b"WAT\r\n", b"PING\r\n"),
        (b"PUB foo 5\r\nhelloXY", b"\r\n"),
        (b"UNSUB 7 x\r\n", b"\r\n"),
    ] {
        let mut longer = input.to_vec();
        longer.extend_from_slice(tail);
        assert_eq!(parse_frame(input), parse_frame(&longer));
    }
}

#[test]
fn every_proper_prefix_needs_more() {
    let frame = b"MSG foo 7 INBOX.42 5\r\nhello\r\n";
    for k in 0..frame.len() {
        assert_eq!(parse_frame(&frame[..k]), ParseOutcome::NeedMore, "{k}");
    }
}

#[test]
fn parser_does_not_panic_on_arbitrary_bytes() {
    let alphabet = b"PUBSNGMI -+\t\r\n0159.*>x";
    let mut s: u64 = 0x9e37_79b9_7f4a_7c15;
    for _ in 0..4096 {
        let mut bytes: Vec<u8> = Vec::new();
        for _ in 0..24 {
            s ^= s << 13;
            s ^= s >> 7;
            s ^= s << 17;
            bytes.push(alphabet[(s % alphabet.len() as u64) as usize]);
        }
        if let ParseOutcome::Frame { consumed, .. } = parse_frame(&bytes) {
            assert!(consumed >= 2 && consumed <= bytes.len());
        }
    }
}

#[test]
fn parse_errors_describe_themselves() {
    assert_eq!(ParseError::UnknownVerb.describe(), "unknown verb");
    assert_eq!(ParseError::BadHeader.describe(), "malformed header line");
    assert_eq!(
        ParseError::PayloadLengthInvalid.describe(),
        "invalid payload length"
    );
    assert_eq!(
        ParseError::MaxMsgsInvalid.describe(),
        "invalid UNSUB max_msgs"
    );
    assert_eq!(
        ParseError::MissingTrailingCrlf.describe(),
        "missing trailing CRLF after payload"
    );
}
