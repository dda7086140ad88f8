use aulon::writer::{after_step, writer_step, WriterMove};
use aulon::{CloseReason, ConnectionId, ConnectionState, EnqueueOutcome, WriterStep};

fn cs(cap: usize) -> ConnectionState {
    ConnectionState::new(ConnectionId::new(1), cap)
}

#[test]
fn fresh_state_is_empty() {
    let s = cs(64);
    assert_eq!(s.pending_bytes(), 0);
    assert_eq!(s.outbound_capacity(), 64);
    assert!(s.close_reason().is_none());
}

#[test]
fn enqueue_then_drain_round_trips_bytes() {
    let mut s = cs(64);
    assert_eq!(s.enqueue(b"hello"), EnqueueOutcome::Queued);
    assert_eq!(s.pending_bytes(), 5);
    let mut buf = [0u8; 16];
    let n = s.drain_into(&mut buf);
    assert_eq!(n, 5);
    assert_eq!(&buf[..n], b"hello");
    assert_eq!(s.pending_bytes(), 0);
}

#[test]
fn drain_resets_cursors_to_zero_on_full_drain() {
    let mut s = cs(8);
    s.enqueue(b"abcd");
    let mut buf = [0u8; 8];
    s.drain_into(&mut buf);
    // Cursors are reset; 8 fresh bytes can be enqueued.
    assert_eq!(s.enqueue(b"12345678"), EnqueueOutcome::Queued);
    let n = s.drain_into(&mut buf);
    assert_eq!(n, 8);
    assert_eq!(&buf[..n], b"12345678");
}

#[test]
fn partial_drain_keeps_remainder() {
    let mut s = cs(64);
    s.enqueue(b"abcdefgh");
    let mut buf = [0u8; 4];
    let n = s.drain_into(&mut buf);
    assert_eq!(n, 4);
    assert_eq!(&buf[..n], b"abcd");
    assert_eq!(s.pending_bytes(), 4);
    let n = s.drain_into(&mut buf);
    assert_eq!(n, 4);
    assert_eq!(&buf[..n], b"efgh");
    assert_eq!(s.pending_bytes(), 0);
}

#[test]
fn enqueue_overflow_marks_slow_consumer() {
    let mut s = cs(8);
    assert_eq!(s.enqueue(b"abcd"), EnqueueOutcome::Queued);
    assert_eq!(s.enqueue(b"efghij"), EnqueueOutcome::SlowConsumerClosed);
    assert_eq!(s.close_reason(), Some(CloseReason::SlowConsumer));
    assert_eq!(s.enqueue(b"more"), EnqueueOutcome::AlreadyClosing);
}

#[test]
fn mark_close_is_idempotent() {
    let mut s = cs(8);
    s.mark_close(CloseReason::ProtocolError);
    s.mark_close(CloseReason::SlowConsumer);
    // First reason wins.
    assert_eq!(s.close_reason(), Some(CloseReason::ProtocolError));
}

#[test]
fn close_reason_text_is_stable() {
    assert_eq!(
        CloseReason::SlowConsumer.err_text(),
        Some(&b"slow consumer"[..])
    );
    assert_eq!(
        CloseReason::ProtocolError.err_text(),
        Some(&b"protocol error"[..])
    );
    assert_eq!(CloseReason::PeerClosed.err_text(), None);
}

#[test]
fn the_state_knows_its_connection() {
    assert_eq!(cs(8).id(), ConnectionId::new(1));
}

#[test]
fn room_comes_back_only_with_a_full_drain() {
    let mut s = cs(8);
    s.enqueue(b"abcdef");
    let mut buf = [0u8; 4];
    assert_eq!(s.drain_into(&mut buf), 4);
    // Two bytes are pending, but six of the buffer are used.
    assert_eq!(s.enqueue(b"xyz"), EnqueueOutcome::SlowConsumerClosed);
    assert_eq!(s.pending_bytes(), 2);
}

#[test]
fn a_full_buffer_is_still_no_overflow() {
    let mut s = cs(4);
    assert_eq!(s.enqueue(b"abcd"), EnqueueOutcome::Queued);
    assert_eq!(s.enqueue(b""), EnqueueOutcome::Queued);
    assert_eq!(s.enqueue(b"e"), EnqueueOutcome::SlowConsumerClosed);
}

#[test]
fn every_enqueue_and_the_first_close_wake_the_writer() {
    let mut s = cs(4);
    assert!(!s.take_wake());
    s.enqueue(b"ab");
    assert!(s.take_wake());
    assert!(!s.take_wake());
    s.enqueue(b"too long");
    assert!(s.take_wake());
    s.enqueue(b"x");
    assert!(s.take_wake());
    s.mark_close(CloseReason::PeerClosed);
    assert!(!s.take_wake());
    let mut s = cs(4);
    s.mark_close(CloseReason::PeerClosed);
    assert!(s.take_wake());
}

#[test]
fn the_writer_drains_before_it_says_goodbye() {
    let mut s = cs(16);
    s.enqueue(b"abcdef");
    s.mark_close(CloseReason::ProtocolError);
    let mut buf = [0u8; 64];
    assert_eq!(writer_step(&mut s, &mut buf[..4]), WriterStep::Write(4));
    assert_eq!(&buf[..4], b"abcd");
    assert_eq!(writer_step(&mut s, &mut buf[..4]), WriterStep::Write(2));
    assert_eq!(&buf[..2], b"ef");
    assert_eq!(s.close_reason(), Some(CloseReason::ProtocolError));
    assert_eq!(writer_step(&mut s, &mut buf), WriterStep::Finish(21));
    assert_eq!(s.close_reason(), None);
    assert_eq!(&buf[..21], b"-ERR protocol error\r\n");
}

#[test]
fn a_failed_write_ends_the_writer() {
    assert_eq!(after_step(WriterStep::Write(3), true), WriterMove::GoOn);
    assert_eq!(
        after_step(WriterStep::Write(3), false),
        WriterMove::ShutDown
    );
    for written in [true, false] {
        assert_eq!(
            after_step(WriterStep::Finish(3), written),
            WriterMove::ShutDown
        );
        assert_eq!(after_step(WriterStep::Stop, written), WriterMove::ShutDown);
        assert_eq!(after_step(WriterStep::Wait, written), WriterMove::Rest);
    }
}

#[test]
fn the_writer_writes_everything_in_order() {
    for room in [21, 22, 30, 64] {
        let mut s = cs(64);
        s.enqueue(b"a message that is longer than the ");
        s.enqueue(b"smallest buffer");
        s.mark_close(CloseReason::ProtocolError);
        let mut buf = vec![0u8; room];
        let mut out: Vec<u8> = Vec::new();
        loop {
            let step = writer_step(&mut s, &mut buf);
            if let WriterStep::Write(n) | WriterStep::Finish(n) = step {
                out.extend_from_slice(&buf[..n]);
            }
            if after_step(step, true) != WriterMove::GoOn {
                break;
            }
        }
        assert_eq!(
            out,
            b"a message that is longer than the smallest buffer-ERR protocol error\r\n"
        );
    }
}

#[test]
fn the_writer_waits_while_there_is_nothing_to_do() {
    let mut s = cs(16);
    let mut buf = [0u8; 64];
    assert_eq!(writer_step(&mut s, &mut buf), WriterStep::Wait);
    s.mark_close(CloseReason::PeerClosed);
    assert_eq!(writer_step(&mut s, &mut buf), WriterStep::Stop);
}

#[test]
fn a_goodbye_that_does_not_fit_is_left_out() {
    let mut s = cs(4);
    s.enqueue(b"overflow");
    let mut buf = [0u8; 8];
    assert_eq!(s.close_reason(), Some(CloseReason::SlowConsumer));
    assert_eq!(writer_step(&mut s, &mut buf), WriterStep::Stop);
}
