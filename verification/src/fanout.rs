//! The client side of the fan-out benchmark.
//!
//! One publisher and a number of subscribers. The publisher writes the time of
//! sending into the first bytes of each payload; a subscriber reads it back
//! and takes the difference to its own clock.

use crate::bytes::{self, starts_with, text};
use crate::emit::{self, emit_pub};
use crate::frame::FrameView;
use crate::grammar;
use crate::parse::find_crlf;
use vstd::prelude::*;

verus! {

/// How many bytes of a payload the time of sending takes.
pub const TIMESTAMP_BYTES: usize = 8;

/// Why a setting is not accepted.
#[derive(Clone, Copy, Debug, PartialEq, Eq, Structural)]
pub enum ConfigError {
    /// The number does not fit the machine's word.
    OutOfRange,
    /// There has to be at least one subscriber.
    NoSubscriber,
    /// The payload has to hold the time of sending.
    PayloadTooShort,
}

/// The subject that the benchmark publishes to.
pub open spec fn subject() -> Seq<u8> {
    bytes::ascii("foo")
}

/// The subject that the benchmark publishes to.
pub fn str_subject() -> (r: &'static str)
    ensures
        r@ == "foo"@,
{
    "foo"
}

/// Checks the number of subscribers.
pub fn check_fanout(n: u64) -> (r: Result<usize, ConfigError>)
    ensures
        r == (if n > usize::MAX {
            Err::<usize, ConfigError>(ConfigError::OutOfRange)
        } else if n == 0 {
            Err::<usize, ConfigError>(ConfigError::NoSubscriber)
        } else {
            Ok::<usize, ConfigError>(n as usize)
        }),
{
    if n > usize::MAX as u64 {
        return Err(ConfigError::OutOfRange);
    }
    if n == 0 {
        return Err(ConfigError::NoSubscriber);
    }
    Ok(n as usize)
}

/// Checks the size of the payload.
pub fn check_payload_bytes(n: u64) -> (r: Result<usize, ConfigError>)
    ensures
        r == (if n > usize::MAX {
            Err::<usize, ConfigError>(ConfigError::OutOfRange)
        } else if n < TIMESTAMP_BYTES {
            Err::<usize, ConfigError>(ConfigError::PayloadTooShort)
        } else {
            Ok::<usize, ConfigError>(n as usize)
        }),
{
    if n > usize::MAX as u64 {
        return Err(ConfigError::OutOfRange);
    }
    if n < TIMESTAMP_BYTES as u64 {
        return Err(ConfigError::PayloadTooShort);
    }
    Ok(n as usize)
}

/// The smallest of the counts, or the largest number there is where there are
/// none.
pub open spec fn slowest(received: Seq<u64>) -> u64
    decreases received.len(),
{
    if received.len() == 0 {
        u64::MAX
    } else {
        let m = slowest(received.drop_last());
        if received.last() < m {
            received.last()
        } else {
            m
        }
    }
}

/// How many messages the slowest subscriber has received.
pub fn min_received(sub_received: &[u64]) -> (m: u64)
    ensures
        m == slowest(sub_received@),
{
    let mut m: u64 = u64::MAX;
    let mut i: usize = 0;
    while i < sub_received.len()
        invariant
            i <= sub_received@.len(),
            m == slowest(sub_received@.take(i as int)),
        decreases sub_received@.len() - i,
    {
        assert(sub_received@.take(i + 1).drop_last() =~= sub_received@.take(i as int));
        if sub_received[i] < m {
            m = sub_received[i];
        }
        i += 1;
    }
    assert(sub_received@.take(i as int) =~= sub_received@);
    m
}

/// The slowest count is a lower bound.
pub proof fn lemma_slowest(received: Seq<u64>, i: int)
    requires
        0 <= i < received.len(),
    ensures
        slowest(received) <= received[i],
    decreases received.len(),
{
    if i < received.len() - 1 {
        lemma_slowest(received.drop_last(), i);
    }
}

/// The publisher has to wait before it sends the message number `sent`: it is
/// `window` messages or more ahead of the slowest subscriber. A window of zero
/// means that it never waits.
pub fn must_wait(sent: u64, sub_received: &[u64], window: u64) -> (r: bool)
    ensures
        r == (window > 0 && exists|i: int|
            0 <= i < sub_received@.len() && sent - #[trigger] sub_received@[i] >= window),
        r == (window > 0 && sent - slowest(sub_received@) >= window),
{
    let r = window > 0 && sent.saturating_sub(min_received(sub_received)) >= window;
    proof {
        let received = sub_received@;
        law_slowest_is_the_least(received);
        if r {
            let i = choose|i: int|
                0 <= i < received.len() && #[trigger] received[i] == slowest(received);
            assert(sent - received[i] >= window);
        } else if exists|i: int|
            0 <= i < received.len() && sent - #[trigger] received[i] >= window {
            let i = choose|i: int|
                0 <= i < received.len() && sent - #[trigger] received[i] >= window;
            assert(slowest(received) <= received[i]);
        }
    }
    r
}

/// As long as the publisher waits when it has to, no subscriber falls more
/// than the window behind.
pub proof fn law_pacing_bounds_the_lag(sent: u64, received: Seq<u64>, window: u64, i: int)
    requires
        window > 0,
        !(sent - slowest(received) >= window),
        0 <= i < received.len(),
    ensures
        sent - received[i] < window,
{
    lemma_slowest(received, i);
}

/// The number that eight bytes denote, the most significant first.
pub open spec fn be_value(b: Seq<u8>) -> int {
    b[0] * 0x100_0000_0000_0000 + b[1] * 0x1_0000_0000_0000 + b[2] * 0x100_0000_0000 + b[3]
        * 0x1_0000_0000 + b[4] * 0x100_0000 + b[5] * 0x1_0000 + b[6] * 0x100 + b[7]
}

/// Eight bytes for a number, the most significant first.
pub open spec fn be_code(v: u64) -> Seq<u8> {
    seq![
        (v / 0x100_0000_0000_0000) as u8,
        ((v / 0x1_0000_0000_0000) % 256) as u8,
        ((v / 0x100_0000_0000) % 256) as u8,
        ((v / 0x1_0000_0000) % 256) as u8,
        ((v / 0x100_0000) % 256) as u8,
        ((v / 0x1_0000) % 256) as u8,
        ((v / 0x100) % 256) as u8,
        (v % 256) as u8,
    ]
}

/// The bytes of a number denote that number.
pub proof fn lemma_be_code(v: u64)
    ensures
        be_code(v).len() == 8,
        be_value(be_code(v)) == v,
{
    let q1 = v / 0x100;
    let q2 = q1 / 256;
    let q3 = q2 / 256;
    let q4 = q3 / 256;
    let q5 = q4 / 256;
    let q6 = q5 / 256;
    let q7 = q6 / 256;
    assert(v / 0x1_0000 == q2);
    assert(v / 0x100_0000 == q3);
    assert(v / 0x1_0000_0000 == q4);
    assert(v / 0x100_0000_0000 == q5);
    assert(v / 0x1_0000_0000_0000 == q6);
    assert(v / 0x100_0000_0000_0000 == q7);
}

/// Eight bytes for a number, the most significant first.
pub fn be_bytes(v: u64) -> (r: Vec<u8>)
    ensures
        r@ == be_code(v),
        be_value(r@) == v,
{
    let mut r: Vec<u8> = Vec::new();
    r.push((v / 0x100_0000_0000_0000) as u8);
    r.push(((v / 0x1_0000_0000_0000) % 256) as u8);
    r.push(((v / 0x100_0000_0000) % 256) as u8);
    r.push(((v / 0x1_0000_0000) % 256) as u8);
    r.push(((v / 0x100_0000) % 256) as u8);
    r.push(((v / 0x1_0000) % 256) as u8);
    r.push(((v / 0x100) % 256) as u8);
    r.push((v % 256) as u8);
    proof {
        lemma_be_code(v);
        assert(r@ =~= be_code(v));
    }
    r
}

/// Reads eight bytes, the most significant first.
pub fn from_be_bytes(b: &[u8]) -> (v: u64)
    requires
        b@.len() == 8,
    ensures
        v == be_value(b@),
{
    b[0] as u64 * 0x100_0000_0000_0000 + b[1] as u64 * 0x1_0000_0000_0000 + b[2] as u64
        * 0x100_0000_0000 + b[3] as u64 * 0x1_0000_0000 + b[4] as u64 * 0x100_0000 + b[5] as u64
        * 0x1_0000 + b[6] as u64 * 0x100 + b[7] as u64
}

/// What a subscriber sends first: `CONNECT` and one `SUB`.
pub fn build_connect_sub() -> (v: Vec<u8>)
    ensures
        v@ == bytes::ascii("CONNECT {}\r\nSUB foo 1\r\n"),
{
    assert(vstd::string::is_ascii("CONNECT {}\r\nSUB foo 1\r\n")) by {
        reveal_strlit("CONNECT {}\r\nSUB foo 1\r\n");
    }
    let mut v: Vec<u8> = Vec::new();
    v.extend_from_slice(text("CONNECT {}\r\nSUB foo 1\r\n"));
    assert(v@ =~= bytes::ascii("CONNECT {}\r\nSUB foo 1\r\n"));
    v
}

/// What the publisher sends first.
pub fn build_connect() -> (v: Vec<u8>)
    ensures
        v@ == bytes::ascii("CONNECT {}\r\n"),
{
    assert(vstd::string::is_ascii("CONNECT {}\r\n")) by {
        reveal_strlit("CONNECT {}\r\n");
    }
    let mut v: Vec<u8> = Vec::new();
    v.extend_from_slice(text("CONNECT {}\r\n"));
    assert(v@ =~= bytes::ascii("CONNECT {}\r\n"));
    v
}

/// The filler behind the time of sending.
pub const FILLER: u8 = 97;

/// A payload of `n` bytes that is sent at `ts`: the time in its first eight
/// bytes, then filler.
pub open spec fn stamped(n: nat, ts: u64) -> Seq<u8> {
    be_code(ts) + Seq::new((n - TIMESTAMP_BYTES) as nat, |i: int| FILLER)
}

/// The message that is published at `ts`, with a payload of `n` bytes.
pub open spec fn message(n: nat, ts: u64) -> Seq<u8> {
    emit::encoded(FrameView::Pub { subject: subject(), reply_to: None, payload: stamped(n, ts) })
}

/// The message that is published at `ts`, with a payload of `payload_bytes`.
pub fn build_pub(payload_bytes: usize, ts: u64) -> (frame: Vec<u8>)
    requires
        TIMESTAMP_BYTES <= payload_bytes <= isize::MAX - 64,
    ensures
        frame@ == message(payload_bytes as nat, ts),
{
    let mut payload: Vec<u8> = be_bytes(ts);
    payload.resize(payload_bytes, FILLER);
    assert(payload@ =~= stamped(payload_bytes as nat, ts));
    assert(vstd::string::is_ascii("foo") && subject().len() == 3) by {
        reveal_strlit("foo");
    }
    proof {
        crate::codec::lemma_pub_len(subject(), payload@);
    }
    let mut frame: Vec<u8> = vec![0;payload_bytes + 64];
    match emit_pub(&mut frame, text("foo"), None, &payload) {
        Ok(n) => {
            frame.truncate(n);
            assert(frame@ =~= message(payload_bytes as nat, ts));
        },
        Err(_) => {
            assert(false);
        },
    }
    frame
}

/// How long after `ts` it was at `now`, where the clock has not run backwards.
pub open spec fn delay(now: u64, ts: u64) -> Option<u64> {
    if now >= ts {
        Some((now - ts) as u64)
    } else {
        None
    }
}

/// The delivery latency of a message sent at `ts` and received at `now`, where
/// the clock has not run backwards.
pub fn latency(now: u64, ts: u64) -> (r: Option<u64>)
    ensures
        r == delay(now, ts),
        r == (if now >= ts {
            Some((now - ts) as u64)
        } else {
            None
        }),
{
    if now >= ts {
        Some(now - ts)
    } else {
        None
    }
}

/// Removes the first `n` bytes.
fn drop_front(v: &mut Vec<u8>, n: usize)
    requires
        n <= old(v)@.len(),
    ensures
        final(v)@ == old(v)@.skip(n as int),
{
    let len: usize = v.len();
    let mut rest: Vec<u8> = Vec::new();
    rest.extend_from_slice(&v[n..len]);
    assert(rest@ =~= v@.skip(n as int));
    *v = rest;
}

/// Removes the first line of `accum` with its terminator, if it is complete.
pub fn drain_one_line(accum: &mut Vec<u8>) -> (done: bool)
    ensures
        match grammar::line_end(old(accum)@) {
            Some(end) => done && final(accum)@ == old(accum)@.skip(end + 2),
            None => !done && final(accum)@ == old(accum)@,
        },
{
    match find_crlf(accum) {
        Some(end) => {
            drop_front(accum, end + 2);
            true
        },
        None => false,
    }
}

/// What is taken out of `accum`, and what is left: lines that are no `MSG` are
/// dropped; then the time of sending out of the first complete `MSG`, with the
/// length of its frame.
pub open spec fn taken(accum: Seq<u8>, payload_bytes: int) -> (Option<(u64, int)>, Seq<u8>)
    decreases accum.len(),
{
    match grammar::line_end(accum) {
        None => (None, accum),
        Some(end) => {
            if bytes::ascii("MSG ").is_prefix_of(accum.take(end)) {
                let total = end + 2 + payload_bytes + 2;
                if accum.len() < total {
                    (None, accum)
                } else {
                    (
                        Some((be_value(accum.subrange(end + 2, end + 10)) as u64, total)),
                        accum.skip(total),
                    )
                }
            } else if 0 <= end <= accum.len() - 2 {
                taken(accum.skip(end + 2), payload_bytes)
            } else {
                (None, accum)
            }
        },
    }
}

/// If `accum` starts with a complete `MSG ... \r\n<payload>\r\n` frame,
/// extract the timestamp prefix from the payload and consume those bytes.
/// Returns `Some((ts_ns, frame_len))` on success.
///
/// Skips any non-MSG control lines (INFO, PING, etc.) by dropping them
/// from the buffer when encountered.
pub fn try_take_msg(accum: &mut Vec<u8>, payload_bytes: usize) -> (r: Option<(u64, usize)>)
    requires
        payload_bytes >= TIMESTAMP_BYTES,
        old(accum)@.len() + payload_bytes + 4 <= usize::MAX,
    ensures
        r is Some == (taken(old(accum)@, payload_bytes as int).0 is Some),
        r matches Some((ts, total)) ==> taken(old(accum)@, payload_bytes as int).0 == Some(
            (ts, total as int),
        ),
        final(accum)@ == taken(old(accum)@, payload_bytes as int).1,
{
    assert(vstd::string::is_ascii("MSG ")) by {
        reveal_strlit("MSG ");
    }
    let ghost goal = taken(accum@, payload_bytes as int);
    loop
        invariant
            vstd::string::is_ascii("MSG "),
            payload_bytes >= TIMESTAMP_BYTES,
            accum@.len() + payload_bytes + 4 <= usize::MAX,
            goal == taken(old(accum)@, payload_bytes as int),
            goal == taken(accum@, payload_bytes as int),
        decreases accum@.len(),
    {
        let header_end: usize = match find_crlf(accum) {
            Some(end) => end,
            None => return None,
        };
        let header = &accum[0..header_end];
        assert(header@ =~= accum@.take(header_end as int));
        if starts_with(header, text("MSG ")) {
            // Need header + CRLF + payload + CRLF total.
            let frame_total: usize = header_end + 2 + payload_bytes + 2;
            if accum.len() < frame_total {
                return None;
            }
            let payload_start: usize = header_end + 2;
            let stamp = &accum[payload_start..payload_start + 8];
            let ts: u64 = from_be_bytes(stamp);
            drop_front(accum, frame_total);
            return Some((ts, frame_total));
        }
        drop_front(accum, header_end + 2);
    }
}

/// The next action of a subscriber.
#[derive(Clone, Copy, Debug, PartialEq, Eq, Structural)]
pub enum SubscriberStep {
    /// All messages have come.
    Done,
    /// A message has come that was sent at this time.
    Received(u64),
    /// Read more bytes from the server.
    Read,
}

/// What a subscriber holds.
#[verifier::ext_equal]
pub struct SubscriberView {
    /// Bytes read and not yet consumed.
    pub accum: Seq<u8>,
    /// How many messages have come.
    pub received: u64,
}

/// The step of a subscriber that is to receive `expected` messages, each with a
/// payload of `n` bytes, and what it holds afterwards.
pub open spec fn subscribing(v: SubscriberView, expected: u64, n: int) -> (
    SubscriberStep,
    SubscriberView,
) {
    if v.received >= expected {
        (SubscriberStep::Done, v)
    } else {
        match taken(v.accum, n) {
            (Some((ts, _)), rest) => (
                SubscriberStep::Received(ts),
                SubscriberView { accum: rest, received: (v.received + 1) as u64 },
            ),
            (None, rest) => (SubscriberStep::Read, SubscriberView { accum: rest, ..v }),
        }
    }
}

/// A subscriber of the benchmark.
pub struct Subscriber {
    accum: Vec<u8>,
    received: u64,
}

impl View for Subscriber {
    type V = SubscriberView;

    closed spec fn view(&self) -> SubscriberView {
        SubscriberView { accum: self.accum@, received: self.received }
    }
}

impl Subscriber {
    /// A subscriber that has read nothing yet.
    pub fn new() -> (r: Self)
        ensures
            r@ == (SubscriberView { accum: Seq::empty(), received: 0 }),
    {
        Subscriber { accum: Vec::new(), received: 0 }
    }

    /// How many messages have come.
    pub fn received(&self) -> (n: u64)
        ensures
            n == self@.received,
    {
        self.received
    }

    /// How many bytes are held that have not been consumed.
    pub fn held(&self) -> (n: usize)
        ensures
            n == self@.accum.len(),
    {
        self.accum.len()
    }

    /// Takes in bytes that were read.
    pub fn feed(&mut self, bytes: &[u8])
        ensures
            final(self)@ == (SubscriberView {
                accum: old(self)@.accum + bytes@,
                ..old(self)@
            }),
    {
        self.accum.extend_from_slice(bytes);
        assert(self.accum@ =~= old(self)@.accum + bytes@);
    }

    /// Drops the greeting, if all of it has come.
    pub fn skip_greeting(&mut self) -> (done: bool)
        ensures
            final(self)@.received == old(self)@.received,
            match grammar::line_end(old(self)@.accum) {
                Some(end) => done && final(self)@.accum == old(self)@.accum.skip(end + 2),
                None => !done && final(self)@.accum == old(self)@.accum,
            },
    {
        drain_one_line(&mut self.accum)
    }

    /// What comes next, where `expected` messages are to come, each with a
    /// payload of `payload_bytes`.
    pub fn step(&mut self, expected: u64, payload_bytes: usize) -> (step: SubscriberStep)
        requires
            payload_bytes >= TIMESTAMP_BYTES,
            old(self)@.accum.len() + payload_bytes + 4 <= usize::MAX,
        ensures
            (step, final(self)@) == subscribing(old(self)@, expected, payload_bytes as int),
            ({
                let (msg, rest) = taken(old(self)@.accum, payload_bytes as int);
                if old(self)@.received >= expected {
                    step == SubscriberStep::Done && final(self)@ == old(self)@
                } else {
                    match msg {
                        Some((ts, _)) => step == SubscriberStep::Received(ts) && final(self)@ == (
                        SubscriberView {
                            accum: rest,
                            received: (old(self)@.received + 1) as u64,
                        }),
                        None => step == SubscriberStep::Read && final(self)@ == (SubscriberView {
                            accum: rest,
                            ..old(self)@
                        }),
                    }
                }
            }),
    {
        if self.received >= expected {
            return SubscriberStep::Done;
        }
        match try_take_msg(&mut self.accum, payload_bytes) {
            Some((ts, _)) => {
                self.received = self.received + 1;
                SubscriberStep::Received(ts)
            },
            None => SubscriberStep::Read,
        }
    }
}

/// How an echo of `expected` bytes has come on.
#[derive(Clone, Copy, Debug, PartialEq, Eq, Structural)]
pub enum EchoStep {
    /// All bytes are back.
    Done,
    /// This many bytes are back; more are to come.
    More(usize),
    /// The server closed the connection before all bytes were back.
    Closed,
}

/// How an echo of `expected` bytes has come on with a read of `n` bytes, where
/// `total` were back before.
pub open spec fn echoed(total: usize, n: usize, expected: usize) -> EchoStep {
    if n == 0 {
        EchoStep::Closed
    } else if total + n >= expected {
        EchoStep::Done
    } else {
        EchoStep::More((total + n) as usize)
    }
}

/// Counts a read of `n` bytes towards an echo of `expected` bytes, `total` of
/// which were back before.
pub fn echo_step(total: usize, n: usize, expected: usize) -> (step: EchoStep)
    requires
        total < expected,
        total + n <= usize::MAX,
    ensures
        step == echoed(total, n, expected),
        step == (if n == 0 {
            EchoStep::Closed
        } else if total + n >= expected {
            EchoStep::Done
        } else {
            EchoStep::More((total + n) as usize)
        }),
{
    if n == 0 {
        EchoStep::Closed
    } else if total + n >= expected {
        EchoStep::Done
    } else {
        EchoStep::More(total + n)
    }
}

/// What the publisher stamps on a message is what the subscriber reads off the
/// delivery of it: a message for this benchmark's subscription, alone in the
/// buffer, gives the time of sending and leaves nothing.
pub proof fn law_stamp_comes_through(sid: Seq<u8>, n: nat, ts: u64)
    requires
        crate::codec::is_word(sid),
        n >= TIMESTAMP_BYTES,
    ensures
        ({
            let msg = emit::encoded(
                FrameView::Msg {
                    subject: subject(),
                    sid,
                    reply_to: None,
                    payload: stamped(n, ts),
                },
            );
            taken(msg, n as int) == (Some((ts, msg.len() as int)), Seq::<u8>::empty())
        }),
{
    let payload = stamped(n, ts);
    let msg = emit::encoded(FrameView::Msg { subject: subject(), sid, reply_to: None, payload });
    assert(crate::codec::is_word(subject())) by {
        reveal_strlit("foo");
    }
    lemma_be_code(ts);
    crate::codec::lemma_msg_shape(subject(), sid, payload);
    let end = grammar::line_end(msg)->0;
    assert(msg.subrange(end + 2, end + 10) =~= payload.take(8));
    assert(payload.take(8) =~= be_code(ts));
    assert(msg.skip(msg.len() as int) =~= Seq::<u8>::empty());
}

/// The next action of the publisher.
#[derive(Clone, Copy, Debug, PartialEq, Eq, Structural)]
pub enum PublisherStep {
    /// Write what [`build_connect`] gives.
    Connect,
    /// Read more bytes from the server: the greeting is not complete.
    Read,
    /// Let the subscribers catch up, then ask again.
    Wait,
    /// Write one message, stamped with the time.
    Publish,
    /// All messages have been written.
    Done,
}

/// What the publisher holds.
#[verifier::ext_equal]
pub struct PublisherView {
    /// It has said `CONNECT`.
    pub connected: bool,
    /// The server's greeting has come.
    pub greeted: bool,
    /// Bytes read and not yet consumed.
    pub accum: Seq<u8>,
    /// How many messages it has published.
    pub sent: u64,
}

/// The publisher before its first step.
pub open spec fn fresh_publisher() -> PublisherView {
    PublisherView { connected: false, greeted: false, accum: Seq::empty(), sent: 0 }
}

/// The step of a publisher that has been greeted.
pub open spec fn sending(
    p: PublisherView,
    received: Seq<u64>,
    total: u64,
    window: u64,
) -> (PublisherStep, PublisherView) {
    if p.sent >= total {
        (PublisherStep::Done, p)
    } else if window > 0 && p.sent - slowest(received) >= window {
        (PublisherStep::Wait, p)
    } else {
        (PublisherStep::Publish, PublisherView { sent: (p.sent + 1) as u64, ..p })
    }
}

/// The step of a publisher that has `total` messages to send and may be less
/// than `window` ahead of the slowest subscriber, where the subscribers have
/// received so many each, and what it holds afterwards.
pub open spec fn publishing(
    p: PublisherView,
    received: Seq<u64>,
    total: u64,
    window: u64,
) -> (PublisherStep, PublisherView) {
    if !p.connected {
        (PublisherStep::Connect, PublisherView { connected: true, ..p })
    } else if p.greeted {
        sending(p, received, total, window)
    } else {
        match grammar::line_end(p.accum) {
            None => (PublisherStep::Read, p),
            Some(end) => sending(
                PublisherView { greeted: true, accum: p.accum.skip(end + 2), ..p },
                received,
                total,
                window,
            ),
        }
    }
}

/// The publisher of the benchmark.
pub struct Publisher {
    connected: bool,
    greeted: bool,
    accum: Vec<u8>,
    sent: u64,
}

impl View for Publisher {
    type V = PublisherView;

    closed spec fn view(&self) -> PublisherView {
        PublisherView {
            connected: self.connected,
            greeted: self.greeted,
            accum: self.accum@,
            sent: self.sent,
        }
    }
}

impl Publisher {
    /// A publisher that has done nothing yet.
    pub fn new() -> (r: Self)
        ensures
            r@ == fresh_publisher(),
    {
        let r = Publisher { connected: false, greeted: false, accum: Vec::new(), sent: 0 };
        assert(r@ =~= fresh_publisher());
        r
    }

    /// How many messages it has published.
    pub fn sent(&self) -> (n: u64)
        ensures
            n == self@.sent,
    {
        self.sent
    }

    /// Takes in bytes that were read.
    pub fn feed(&mut self, bytes: &[u8])
        ensures
            final(self)@ == (PublisherView { accum: old(self)@.accum + bytes@, ..old(self)@ }),
    {
        self.accum.extend_from_slice(bytes);
        assert(self.accum@ =~= old(self)@.accum + bytes@);
    }

    /// What comes next, where `total` messages are to be sent, each of them
    /// only when it is less than `window` ahead of what the slowest subscriber
    /// has received (zero for no bound).
    pub fn step(&mut self, received: &[u64], total: u64, window: u64) -> (step: PublisherStep)
        ensures
            (step, final(self)@) == publishing(old(self)@, received@, total, window),
    {
        if !self.connected {
            self.connected = true;
            return PublisherStep::Connect;
        }
        if !self.greeted {
            if !drain_one_line(&mut self.accum) {
                return PublisherStep::Read;
            }
            self.greeted = true;
        }
        if self.sent >= total {
            return PublisherStep::Done;
        }
        if must_wait(self.sent, received, window) {
            return PublisherStep::Wait;
        }
        self.sent = self.sent + 1;
        PublisherStep::Publish
    }
}

/// One turn of a publisher's loop: the bytes that were read before it, what
/// the subscribers have received by then, and the time.
pub struct PublisherTurn {
    pub read: Seq<u8>,
    pub received: Seq<u64>,
    pub now: u64,
}

/// What a publisher has come to: what it holds, what it has written, and the
/// times that its messages are stamped with.
pub struct Drive {
    pub publisher: PublisherView,
    pub written: Seq<u8>,
    pub stamps: Seq<u64>,
}

/// The publisher before a turn's step, having taken in what was read.
pub open spec fn before_turn(d: Drive, turn: PublisherTurn) -> PublisherView {
    PublisherView { accum: d.publisher.accum + turn.read, ..d.publisher }
}

/// What a publisher has come to after the first `k` turns, with a payload of
/// `n` bytes in each message.
pub open spec fn driven(turns: Seq<PublisherTurn>, k: int, n: nat, total: u64, window: u64) -> Drive
    decreases k,
{
    if k <= 0 {
        Drive { publisher: fresh_publisher(), written: Seq::empty(), stamps: Seq::empty() }
    } else {
        let d = driven(turns, k - 1, n, total, window);
        let turn = turns[k - 1];
        let (step, publisher) = publishing(before_turn(d, turn), turn.received, total, window);
        match step {
            PublisherStep::Connect => Drive {
                publisher,
                written: d.written + bytes::ascii("CONNECT {}\r\n"),
                ..d
            },
            PublisherStep::Publish => Drive {
                publisher,
                written: d.written + message(n, turn.now),
                stamps: d.stamps.push(turn.now),
            },
            _ => Drive { publisher, ..d },
        }
    }
}

/// The messages with these stamps, one behind the other.
pub open spec fn messages(stamps: Seq<u64>, n: nat) -> Seq<u8>
    decreases stamps.len(),
{
    if stamps.len() == 0 {
        Seq::empty()
    } else {
        messages(stamps.drop_last(), n) + message(n, stamps.last())
    }
}

/// Whatever the publisher reads and whatever the subscribers do, it writes
/// `CONNECT` first and then its messages, one behind the other and no more
/// than `total` of them. It is done exactly when it has been greeted and has
/// written all of them.
pub proof fn law_drive_writes_in_order(
    turns: Seq<PublisherTurn>,
    k: int,
    n: nat,
    total: u64,
    window: u64,
)
    requires
        0 <= k <= turns.len(),
    ensures
        ({
            let d = driven(turns, k, n, total, window);
            &&& d.publisher.sent == d.stamps.len()
            &&& d.publisher.sent <= total
            &&& d.publisher.greeted ==> d.publisher.connected
            &&& d.stamps.len() > 0 ==> d.publisher.greeted
            &&& d.written == if d.publisher.connected {
                bytes::ascii("CONNECT {}\r\n") + messages(d.stamps, n)
            } else {
                Seq::empty()
            }
            &&& k < turns.len() ==> {
                let (step, after) = publishing(
                    before_turn(d, turns[k]),
                    turns[k].received,
                    total,
                    window,
                );
                step is Done <==> after.greeted && d.stamps.len() == total
            }
        }),
    decreases k,
{
    let d = driven(turns, k, n, total, window);
    if k > 0 {
        law_drive_writes_in_order(turns, k - 1, n, total, window);
        let prior = driven(turns, k - 1, n, total, window);
        let turn = turns[k - 1];
        let (step, _) = publishing(before_turn(prior, turn), turn.received, total, window);
        let connect = bytes::ascii("CONNECT {}\r\n");
        if step is Publish {
            assert(d.stamps.drop_last() =~= prior.stamps);
            assert(connect + messages(prior.stamps, n) + message(n, turn.now) =~= connect + (
            messages(prior.stamps, n) + message(n, turn.now)));
        } else if step is Connect {
            assert(Seq::<u8>::empty() + connect =~= connect + Seq::<u8>::empty());
        }
    }
}

/// Each message is written within the window: the one with number `i`, from
/// zero on, only when `i` is less than `window` ahead of what the slowest
/// subscriber, and so every subscriber, has received.
pub proof fn law_messages_keep_within_the_window(
    turns: Seq<PublisherTurn>,
    k: int,
    n: nat,
    total: u64,
    window: u64,
    j: int,
)
    requires
        0 <= k < turns.len(),
        window > 0,
        driven(turns, k + 1, n, total, window).stamps.len() > driven(
            turns,
            k,
            n,
            total,
            window,
        ).stamps.len(),
        0 <= j < turns[k].received.len(),
    ensures
        ({
            let i = driven(turns, k, n, total, window).stamps.len();
            &&& i < total
            &&& i < slowest(turns[k].received) + window
            &&& i < turns[k].received[j] + window
        }),
{
    law_drive_writes_in_order(turns, k, n, total, window);
    lemma_slowest(turns[k].received, j);
}

/// A delivery at the head of the buffer is taken whole, and nothing but it:
/// taking gives the number in the first eight bytes of its payload and its
/// length on the wire, and leaves exactly the bytes behind it, whatever they
/// are.
pub proof fn law_one_delivery_is_taken(
    subject: Seq<u8>,
    sid: Seq<u8>,
    reply_to: Option<Seq<u8>>,
    payload: Seq<u8>,
    tail: Seq<u8>,
)
    requires
        crate::codec::is_word(subject),
        crate::codec::is_word(sid),
        crate::codec::is_optional_word(reply_to),
        payload.len() >= TIMESTAMP_BYTES,
    ensures
        ({
            let msg = emit::encoded(FrameView::Msg { subject, sid, reply_to, payload });
            taken(msg + tail, payload.len() as int) == (
                Some((be_value(payload.take(8)) as u64, msg.len() as int)),
                tail,
            )
        }),
{
    let msg = emit::encoded(FrameView::Msg { subject, sid, reply_to, payload });
    let buf = msg + tail;
    let end = crate::codec::lemma_delivery_shape(subject, sid, reply_to, payload, tail);
    assert(buf.subrange(end + 2, end + 10) =~= payload.take(8)) by {
        assert(buf.subrange(end + 2, end + 2 + payload.len()).take(8) =~= payload.take(8));
    }
}

/// What the publisher stamps on a message is what the subscriber reads off the
/// delivery of it, whatever follows in the buffer: the time of sending and the
/// length of the delivery, and exactly what follows is left.
pub proof fn law_stamp_comes_through_whatever_follows(
    sid: Seq<u8>,
    n: nat,
    ts: u64,
    tail: Seq<u8>,
)
    requires
        crate::codec::is_word(sid),
        n >= TIMESTAMP_BYTES,
    ensures
        ({
            let msg = emit::encoded(
                FrameView::Msg {
                    subject: subject(),
                    sid,
                    reply_to: None,
                    payload: stamped(n, ts),
                },
            );
            taken(msg + tail, n as int) == (Some((ts, msg.len() as int)), tail)
        }),
{
    assert(crate::codec::is_word(subject())) by {
        reveal_strlit("foo");
    }
    lemma_be_code(ts);
    assert(stamped(n, ts).take(8) =~= be_code(ts));
    law_one_delivery_is_taken(subject(), sid, None, stamped(n, ts), tail);
}

/// Deliveries of messages with these stamps, one behind the other.
pub open spec fn deliveries(sid: Seq<u8>, n: nat, stamps: Seq<u64>) -> Seq<u8>
    decreases stamps.len(),
{
    if stamps.len() == 0 {
        Seq::empty()
    } else {
        emit::encoded(
            FrameView::Msg {
                subject: subject(),
                sid,
                reply_to: None,
                payload: stamped(n, stamps[0]),
            },
        ) + deliveries(sid, n, stamps.skip(1))
    }
}

/// What is left of a buffer after taking `k` times.
pub open spec fn left_after(accum: Seq<u8>, n: nat, k: nat) -> Seq<u8>
    decreases k,
{
    if k == 0 {
        accum
    } else {
        left_after(taken(accum, n as int).1, n, (k - 1) as nat)
    }
}

/// Deliveries that have come together are taken one by one, in order: the one
/// with number `k` gives its own stamp after `k` have been taken, and none is
/// dropped or taken twice.
pub proof fn law_deliveries_are_taken_one_by_one(
    sid: Seq<u8>,
    n: nat,
    stamps: Seq<u64>,
    k: nat,
    tail: Seq<u8>,
)
    requires
        crate::codec::is_word(sid),
        n >= TIMESTAMP_BYTES,
        k < stamps.len(),
    ensures
        ({
            let rest = left_after(deliveries(sid, n, stamps) + tail, n, k);
            &&& rest == deliveries(sid, n, stamps.skip(k as int)) + tail
            &&& taken(rest, n as int).0 matches Some((ts, _)) && ts == stamps[k as int]
            &&& taken(rest, n as int).1 == deliveries(sid, n, stamps.skip(k as int + 1)) + tail
        }),
    decreases k,
{
    let first = emit::encoded(
        FrameView::Msg {
            subject: subject(),
            sid,
            reply_to: None,
            payload: stamped(n, stamps[0]),
        },
    );
    let rest = stamps.skip(1);
    let all = deliveries(sid, n, stamps) + tail;
    assert(all =~= first + (deliveries(sid, n, rest) + tail));
    law_stamp_comes_through_whatever_follows(sid, n, stamps[0], deliveries(sid, n, rest) + tail);
    if k == 0 {
        assert(stamps.skip(0) =~= stamps);
    } else {
        law_deliveries_are_taken_one_by_one(sid, n, rest, (k - 1) as nat, tail);
        assert(rest.skip(k - 1) =~= stamps.skip(k as int));
        assert(rest.skip(k as int) =~= stamps.skip(k as int + 1));
        assert(rest[k - 1] == stamps[k as int]);
    }
}

/// Lines that are no delivery are passed over: taking goes on behind them.
pub proof fn law_other_lines_are_passed_over(line: Seq<u8>, tail: Seq<u8>, n: int)
    requires
        crate::codec::on_one_line(line),
        !(line.len() >= 4 && line[0] == 77 && line[1] == 83 && line[2] == 71 && line[3] == 32),
    ensures
        taken(line + seq![13u8, 10u8] + tail, n) == taken(tail, n),
{
    crate::codec::lemma_line_at_head(line, tail);
    reveal_strlit("MSG ");
    let head = bytes::ascii("MSG ");
    if head.is_prefix_of(line) {
        assert(line.subrange(0, 4) == head);
        assert(line[0] == head[0] && line[1] == head[1] && line[2] == head[2] && line[3]
            == head[3]);
    }
}

/// How the bytes are cut into reads does not matter. Where nothing could be
/// taken, taking later, with more bytes behind what was left, is taking from
/// all of them. Where a delivery was taken, the bytes to come are left behind
/// what was left.
pub proof fn law_taking_can_be_cut(accum: Seq<u8>, more: Seq<u8>, n: int)
    requires
        n >= 8,
    ensures
        taken(accum, n).0 is None ==> taken(taken(accum, n).1 + more, n) == taken(
            accum + more,
            n,
        ),
        taken(accum, n).0 is Some ==> taken(accum + more, n) == (
            taken(accum, n).0,
            taken(accum, n).1 + more,
        ),
    decreases accum.len(),
{
    if let Some(end) = grammar::line_end(accum) {
        let whole = accum + more;
        assert(grammar::is_line_end(accum, end));
        assert forall|j: int| 0 <= j <= end implies grammar::crlf_at(whole, j)
            == grammar::crlf_at(accum, j) by {}
        grammar::lemma_line_end(whole, end);
        assert(whole.take(end) =~= accum.take(end));
        if bytes::ascii("MSG ").is_prefix_of(accum.take(end)) {
            let total = end + 2 + n + 2;
            if accum.len() >= total {
                assert(whole.subrange(end + 2, end + 10) =~= accum.subrange(end + 2, end + 10));
                assert(whole.skip(total) =~= accum.skip(total) + more);
            }
        } else {
            assert(whole.skip(end + 2) =~= accum.skip(end + 2) + more);
            law_taking_can_be_cut(accum.skip(end + 2), more, n);
        }
    }
}

/// As long as a delivery is not complete nothing is taken and nothing is lost.
pub proof fn law_part_of_a_delivery_stays(
    subject: Seq<u8>,
    sid: Seq<u8>,
    reply_to: Option<Seq<u8>>,
    payload: Seq<u8>,
    k: int,
)
    requires
        crate::codec::is_word(subject),
        crate::codec::is_word(sid),
        crate::codec::is_optional_word(reply_to),
        payload.len() >= TIMESTAMP_BYTES,
        0 <= k < emit::encoded(FrameView::Msg { subject, sid, reply_to, payload }).len(),
    ensures
        ({
            let msg = emit::encoded(FrameView::Msg { subject, sid, reply_to, payload });
            taken(msg.take(k), payload.len() as int) == (None::<(u64, int)>, msg.take(k))
        }),
{
    let msg = emit::encoded(FrameView::Msg { subject, sid, reply_to, payload });
    let end = crate::codec::lemma_delivery_shape(subject, sid, reply_to, payload, Seq::empty());
    assert(msg + Seq::<u8>::empty() =~= msg);
    let part = msg.take(k);
    if let Some(e) = grammar::line_end(part) {
        assert(grammar::is_line_end(part, e));
        assert(grammar::is_line_end(msg, end));
        assert(grammar::crlf_at(msg, e));
        if e > end {
            assert(grammar::crlf_at(part, end));
        }
        assert(e == end);
        assert(part.take(end) =~= msg.take(end));
    }
}

/// The number that bytes denote, the most significant first.
pub open spec fn base_256(b: Seq<u8>) -> int
    decreases b.len(),
{
    if b.len() == 0 {
        0
    } else {
        256 * base_256(b.drop_last()) + b.last()
    }
}

/// A stamp is the time as eight bytes, the most significant first: it reads as
/// the number that it was made from, and that is what its bytes denote.
pub proof fn law_stamps_are_big_endian(v: u64, b: Seq<u8>)
    requires
        b.len() == 8,
    ensures
        be_code(v).len() == 8,
        be_value(be_code(v)) == v,
        be_value(b) == base_256(b),
        base_256(be_code(v)) == v,
{
    lemma_be_code(v);
    lemma_base_256(b);
    lemma_base_256(be_code(v));
}

proof fn lemma_base_256(b: Seq<u8>)
    requires
        b.len() == 8,
    ensures
        be_value(b) == base_256(b),
{
    let b7 = b.drop_last();
    let b6 = b7.drop_last();
    let b5 = b6.drop_last();
    let b4 = b5.drop_last();
    let b3 = b4.drop_last();
    let b2 = b3.drop_last();
    let b1 = b2.drop_last();
    assert(base_256(b1.drop_last()) == 0);
    assert(base_256(b1) == b[0]);
    assert(base_256(b2) == 256 * base_256(b1) + b[1]);
    assert(base_256(b3) == 256 * base_256(b2) + b[2]);
    assert(base_256(b4) == 256 * base_256(b3) + b[3]);
    assert(base_256(b5) == 256 * base_256(b4) + b[4]);
    assert(base_256(b6) == 256 * base_256(b5) + b[5]);
    assert(base_256(b7) == 256 * base_256(b6) + b[6]);
    assert(base_256(b) == 256 * base_256(b7) + b[7]);
}

/// What the publisher writes, byte for byte: a `PUB` to `foo` of a payload that
/// starts with the time and is filled up to its length.
pub proof fn law_messages_on_the_wire(n: nat, ts: u64, i: int)
    requires
        n >= TIMESTAMP_BYTES,
    ensures
        message(n, ts) == bytes::ascii("PUB ") + bytes::ascii("foo") + seq![32u8]
            + Seq::<u8>::empty() + (grammar::decimal(n) + seq![13u8, 10u8] + stamped(n, ts) + seq![
            13u8,
            10u8,
        ]),
        stamped(n, ts).len() == n,
        stamped(n, ts).take(8) == be_code(ts),
        8 <= i < n ==> stamped(n, ts)[i] == 97,
{
    lemma_be_code(ts);
    crate::codec::law_wire_format(
        FrameView::Pub { subject: subject(), reply_to: None, payload: stamped(n, ts) },
    );
    assert(stamped(n, ts).take(8) =~= be_code(ts));
}

/// The slowest subscriber has received what the least of them has: no one has
/// less, and one has just that.
pub proof fn law_slowest_is_the_least(received: Seq<u64>)
    ensures
        forall|i: int| 0 <= i < received.len() ==> slowest(received) <= #[trigger] received[i],
        received.len() > 0 ==> exists|i: int|
            0 <= i < received.len() && #[trigger] received[i] == slowest(received),
        received.len() == 0 ==> slowest(received) == u64::MAX,
    decreases received.len(),
{
    if received.len() > 0 {
        let init = received.drop_last();
        law_slowest_is_the_least(init);
        assert(received[received.len() - 1] == received.last());
        assert forall|i: int| 0 <= i < received.len() implies slowest(received)
            <= #[trigger] received[i] by {
            if i < init.len() {
                assert(init[i] == received[i]);
            }
        }
        if slowest(received) != received.last() {
            if init.len() > 0 {
                let i = choose|i: int| 0 <= i < init.len() && #[trigger] init[i] == slowest(init);
                assert(received[i] == slowest(received));
            }
        }
    }
}

/// Each step of the publisher, by what it holds: first it connects; then it
/// reads until a whole line has come, which it drops; then it is done if it has
/// sent all, waits if it may have only so many messages under way and some
/// subscriber lacks as many of those sent, and else publishes one more.
pub proof fn law_steps_of_the_publisher(
    p: PublisherView,
    received: Seq<u64>,
    total: u64,
    window: u64,
)
    ensures
        ({
            let (step, after) = publishing(p, received, total, window);
            let line = grammar::line_end(p.accum);
            let ready = p.connected && (p.greeted || line is Some);
            let held_back = window > 0 && exists|i: int|
                0 <= i < received.len() && p.sent - #[trigger] received[i] >= window;
            &&& step is Connect == !p.connected
            &&& step is Read == (p.connected && !p.greeted && line is None)
            &&& step is Done == (ready && p.sent >= total)
            &&& step is Wait == (ready && p.sent < total && held_back)
            &&& step is Publish == (ready && p.sent < total && !held_back)
            &&& after.sent == p.sent + (if step is Publish {
                1int
            } else {
                0
            })
            &&& after.connected
            &&& after.greeted == (p.greeted || ready)
            &&& after.accum == (if ready && !p.greeted {
                p.accum.skip(line->0 + 2)
            } else {
                p.accum
            })
        }),
{
    law_slowest_is_the_least(received);
    if exists|i: int| 0 <= i < received.len() && p.sent - #[trigger] received[i] >= window {
        let i = choose|i: int|
            0 <= i < received.len() && p.sent - #[trigger] received[i] >= window;
        assert(slowest(received) <= received[i]);
    }
    if window > 0 && p.sent - slowest(received) >= window {
        let i = choose|i: int|
            0 <= i < received.len() && #[trigger] received[i] == slowest(received);
        assert(p.sent - received[i] >= window);
    }
}

/// A delay added to the time of sending is the time of receipt; there is none
/// exactly where that lies before.
pub proof fn law_delays_add_up(now: u64, ts: u64)
    ensures
        delay(now, ts) is None == (now < ts),
        delay(now, ts) matches Some(d) ==> ts + d == now,
{
}

/// A subscriber counts every delivery once: as long as messages are missing, a
/// delivery at the head of what it holds makes one more, gives the time that it
/// was stamped with, and leaves what follows; then it is done, and takes
/// nothing more.
pub proof fn law_subscribers_count_deliveries(
    v: SubscriberView,
    expected: u64,
    sid: Seq<u8>,
    n: nat,
    ts: u64,
    tail: Seq<u8>,
)
    requires
        crate::codec::is_word(sid),
        n >= TIMESTAMP_BYTES,
        v.accum == deliveries(sid, n, seq![ts]) + tail,
    ensures
        ({
            let (step, after) = subscribing(v, expected, n as int);
            if v.received < expected {
                step == SubscriberStep::Received(ts) && after.accum == tail && after.received
                    == v.received + 1
            } else {
                step is Done && after == v
            }
        }),
{
    law_deliveries_are_taken_one_by_one(sid, n, seq![ts], 0, tail);
    assert(seq![ts].skip(1) =~= Seq::<u64>::empty());
    assert(deliveries(sid, n, Seq::empty()) + tail =~= tail);
}

/// A subscriber that has no complete delivery asks for more bytes and counts
/// nothing; it is done if and only if it has received as many as are expected.
pub proof fn law_subscribers_wait_for_deliveries(v: SubscriberView, expected: u64, n: int)
    ensures
        ({
            let (step, after) = subscribing(v, expected, n);
            &&& step is Done == (v.received >= expected)
            &&& step is Read == (v.received < expected && taken(v.accum, n).0 is None)
            &&& step is Read ==> after.received == v.received && after.accum == taken(
                v.accum,
                n,
            ).1
            &&& step is Received ==> after.received == v.received + 1
        }),
{
}

/// An echo is done when as many bytes as were sent are back, and not before:
/// until then the bytes of its reads add up. A read of nothing means that the
/// server closed.
pub proof fn law_echoes_add_up(total: usize, n: usize, expected: usize)
    requires
        total < expected,
        total + n <= usize::MAX,
    ensures
        echoed(total, n, expected) is Closed == (n == 0),
        echoed(total, n, expected) is Done == (n > 0 && total + n >= expected),
        echoed(total, n, expected) matches EchoStep::More(m) ==> m == total + n && m < expected,
{
}

} // verus!
