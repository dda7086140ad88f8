use aulon::fanout::{
    be_bytes, build_connect, build_connect_sub, build_pub, check_fanout, check_payload_bytes,
    drain_one_line, echo_step, from_be_bytes, latency, min_received, must_wait, str_subject,
    try_take_msg, ConfigError, EchoStep, Publisher, PublisherStep, Subscriber, SubscriberStep,
};
use aulon::{Reader, Worker, WriterStep};

#[test]
fn settings_are_checked() {
    assert_eq!(check_fanout(8), Ok(8));
    assert_eq!(check_fanout(0), Err(ConfigError::NoSubscriber));
    assert_eq!(check_payload_bytes(8), Ok(8));
    assert_eq!(check_payload_bytes(7), Err(ConfigError::PayloadTooShort));
    assert_eq!(
        check_fanout(u64::MAX).is_ok(),
        u64::try_from(usize::MAX) == Ok(u64::MAX)
    );
}

#[test]
fn first_bytes_are_as_the_server_expects_them() {
    assert_eq!(str_subject(), "foo");
    assert_eq!(build_connect_sub(), b"CONNECT {}\r\nSUB foo 1\r\n");
    assert_eq!(build_connect(), b"CONNECT {}\r\n");
}

#[test]
fn numbers_go_over_the_wire_most_significant_first() {
    let n = 0x0102_0304_0506_0708u64;
    assert_eq!(be_bytes(n), n.to_be_bytes());
    assert_eq!(from_be_bytes(&n.to_be_bytes()), n);
    assert_eq!(be_bytes(u64::MAX), [0xff; 8]);
    assert_eq!(from_be_bytes(&[0, 0, 0, 0, 0, 0, 1, 0]), 256);
}

#[test]
fn a_published_frame_has_header_stamp_and_filler() {
    let mut want = b"PUB foo 12\r\n".to_vec();
    want.extend_from_slice(&77u64.to_be_bytes());
    want.extend_from_slice(b"aaaa\r\n");
    assert_eq!(build_pub(12, 77), want);
}

#[test]
fn the_publisher_waits_for_the_slowest() {
    assert_eq!(min_received(&[5, 3, 9]), 3);
    assert_eq!(min_received(&[]), u64::MAX);
    assert!(must_wait(5, &[5, 3, 9], 2));
    assert!(!must_wait(4, &[5, 3, 9], 2));
    assert!(!must_wait(1000, &[0], 0));
    assert!(!must_wait(2, &[5], 1));
}

#[test]
fn a_latency_needs_a_clock_that_runs_forward() {
    assert_eq!(latency(10, 4), Some(6));
    assert_eq!(latency(4, 4), Some(0));
    assert_eq!(latency(3, 4), None);
}

#[test]
fn one_line_is_drained_when_it_is_complete() {
    let mut v = b"INFO {}".to_vec();
    assert!(!drain_one_line(&mut v));
    v.extend_from_slice(b"\r");
    assert!(!drain_one_line(&mut v));
    v.extend_from_slice(b"\nMSG");
    assert!(drain_one_line(&mut v));
    assert_eq!(v, b"MSG");
}

#[test]
fn messages_are_taken_when_they_are_complete() {
    let mut v = b"PING\r\n+OK\r\nMSG foo 1 9\r\n".to_vec();
    assert_eq!(try_take_msg(&mut v, 9), None);
    assert_eq!(v, b"MSG foo 1 9\r\n");
    v.extend_from_slice(&300u64.to_be_bytes());
    v.extend_from_slice(b"a\r");
    assert_eq!(try_take_msg(&mut v, 9), None);
    v.extend_from_slice(b"\nMSG");
    assert_eq!(try_take_msg(&mut v, 9), Some((300, 24)));
    assert_eq!(v, b"MSG");
}

#[test]
fn an_echo_is_counted() {
    assert_eq!(echo_step(0, 0, 4), EchoStep::Closed);
    assert_eq!(echo_step(0, 3, 4), EchoStep::More(3));
    assert_eq!(echo_step(3, 1, 4), EchoStep::Done);
    assert_eq!(echo_step(3, 2, 4), EchoStep::Done);
}

#[test]
fn the_publisher_connects_then_sends_within_its_window() {
    let mut p = Publisher::new();
    assert_eq!(p.step(&[0, 0], 3, 1), PublisherStep::Connect);
    assert_eq!(p.step(&[0, 0], 3, 1), PublisherStep::Read);
    p.feed(b"INFO {}\r");
    assert_eq!(p.step(&[0, 0], 3, 1), PublisherStep::Read);
    p.feed(b"\n");
    assert_eq!(p.step(&[0, 0], 3, 1), PublisherStep::Publish);
    assert_eq!(p.step(&[1, 0], 3, 1), PublisherStep::Wait);
    assert_eq!(p.step(&[1, 1], 3, 1), PublisherStep::Publish);
    assert_eq!(p.step(&[2, 2], 3, 1), PublisherStep::Publish);
    assert_eq!(p.sent(), 3);
    assert_eq!(p.step(&[2, 2], 3, 1), PublisherStep::Done);
    let mut p = Publisher::new();
    p.feed(b"INFO {}\r\n");
    assert_eq!(p.step(&[0], 1000, 0), PublisherStep::Connect);
    for _ in 0..1000 {
        assert_eq!(p.step(&[0], 1000, 0), PublisherStep::Publish);
    }
    assert_eq!(p.step(&[0], 1000, 0), PublisherStep::Done);
}

/// Carries what a connection's writer has to write to a subscriber.
fn carry(w: &mut Worker, r: &Reader, s: &mut Subscriber) {
    let mut buf = [0u8; 64];
    while let Some(WriterStep::Write(n)) = w.write_next(r.id(), &mut buf) {
        s.feed(&buf[..n]);
    }
}

#[test]
fn stamps_come_through_the_broker() {
    let mut w = Worker::new();
    let id = w.next_id();
    w.accept(id);
    w.greet(id);
    let mut subscriber_end = Reader::new(id);
    let id = w.next_id();
    w.accept(id);
    let mut publisher_end = Reader::new(id);

    let mut s = Subscriber::new();
    assert!(!s.skip_greeting());
    assert!(w.receive(&mut subscriber_end, &build_connect_sub()));
    carry(&mut w, &subscriber_end, &mut s);
    assert!(s.skip_greeting());
    assert_eq!(s.held(), 0);

    assert!(w.receive(&mut publisher_end, &build_connect()));
    for ts in [3u64, 1 << 40, u64::MAX] {
        assert_eq!(s.step(3, 100), SubscriberStep::Read);
        assert!(w.receive(&mut publisher_end, &build_pub(100, ts)));
        carry(&mut w, &subscriber_end, &mut s);
        assert_eq!(s.step(3, 100), SubscriberStep::Received(ts));
    }
    assert_eq!(s.received(), 3);
    assert_eq!(s.step(3, 100), SubscriberStep::Done);
}
