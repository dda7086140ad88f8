//! Streaming, allocation-free wire parser.

use crate::bytes::{bytes_eq, text};
use crate::error::ParseError;
use crate::frame::{Frame, FrameView};
use crate::grammar::{self, OutcomeView, CR, LF, SP, TAB, ZERO};
use vstd::prelude::*;

verus! {

/// Outcome of one [`parse_frame`] call against a borrowed input buffer.
#[derive(Debug, Clone, PartialEq, Eq)]
pub enum ParseOutcome<'a> {
    /// A complete frame was parsed; advance the buffer by `consumed`
    /// bytes before the next call.
    Frame {
        /// The parsed frame, with field slices borrowed from `buf`.
        frame: Frame<'a>,
        /// Number of bytes that made up this frame in `buf`.
        consumed: usize,
    },
    /// `buf` does not yet contain a full frame; the caller should append
    /// more bytes from the wire and call `parse_frame` again.
    NeedMore,
    /// `buf` is malformed in a way that does not improve with more data;
    /// the caller should close the connection.
    Error(ParseError),
}

impl View for ParseOutcome<'_> {
    type V = OutcomeView;

    open spec fn view(&self) -> OutcomeView {
        match *self {
            ParseOutcome::Frame { frame, consumed } => OutcomeView::Frame {
                frame: frame@,
                consumed: consumed as int,
            },
            ParseOutcome::NeedMore => OutcomeView::NeedMore,
            ParseOutcome::Error(e) => OutcomeView::Error(e),
        }
    }
}

/// Parses one frame from the head of `buf`.
#[must_use]
pub fn parse_frame(buf: &[u8]) -> (outcome: ParseOutcome<'_>)
    ensures
        outcome@ == grammar::parsed(buf@),
{
    let line_end: usize = match find_crlf(buf) {
        Some(end) => end,
        None => return ParseOutcome::NeedMore,
    };
    let header_total: usize = line_end + 2;
    let line = &buf[0..line_end];
    assert(line@ =~= buf@.take(line_end as int));

    let (verb, rest) = split_verb(line);
    proof {
        lemma_verbs_are_ascii();
    }
    if bytes_eq(verb, text("PING")) {
        header_only(Frame::Ping, rest, header_total)
    } else if bytes_eq(verb, text("PONG")) {
        header_only(Frame::Pong, rest, header_total)
    } else if bytes_eq(verb, text("+OK")) {
        header_only(Frame::Ack, rest, header_total)
    } else if bytes_eq(verb, text("-ERR")) {
        parse_err(rest, header_total)
    } else if bytes_eq(verb, text("CONNECT")) {
        parse_connect(rest, header_total)
    } else if bytes_eq(verb, text("INFO")) {
        parse_info(rest, header_total)
    } else if bytes_eq(verb, text("SUB")) {
        parse_sub(rest, header_total)
    } else if bytes_eq(verb, text("UNSUB")) {
        parse_unsub(rest, header_total)
    } else if bytes_eq(verb, text("PUB")) {
        parse_pub(buf, rest, header_total)
    } else if bytes_eq(verb, text("MSG")) {
        parse_msg(buf, rest, header_total)
    } else {
        ParseOutcome::Error(ParseError::UnknownVerb)
    }
}

/// The verbs are plain ASCII.
proof fn lemma_verbs_are_ascii()
    ensures
        vstd::string::is_ascii("PING"),
        vstd::string::is_ascii("PONG"),
        vstd::string::is_ascii("+OK"),
        vstd::string::is_ascii("-ERR"),
        vstd::string::is_ascii("CONNECT"),
        vstd::string::is_ascii("INFO"),
        vstd::string::is_ascii("SUB"),
        vstd::string::is_ascii("UNSUB"),
        vstd::string::is_ascii("PUB"),
        vstd::string::is_ascii("MSG"),
{
    reveal_strlit("PING");
    reveal_strlit("PONG");
    reveal_strlit("+OK");
    reveal_strlit("-ERR");
    reveal_strlit("CONNECT");
    reveal_strlit("INFO");
    reveal_strlit("SUB");
    reveal_strlit("UNSUB");
    reveal_strlit("PUB");
    reveal_strlit("MSG");
}

/// A verb that takes no arguments.
fn header_only<'a>(frame: Frame<'a>, rest: &[u8], header_total: usize) -> (outcome: ParseOutcome<'a>)
    ensures
        outcome@ == grammar::bare_verb(frame@, rest@, header_total as int),
{
    if rest.len() != 0 {
        return ParseOutcome::Error(ParseError::BadHeader);
    }
    ParseOutcome::Frame { frame, consumed: header_total }
}

/// `-ERR`: `rest` is the message verbatim. [`split_verb`] already consumed
/// the single separator behind the verb; further blanks belong to the message.
fn parse_err(rest: &[u8], header_total: usize) -> (outcome: ParseOutcome<'_>)
    ensures
        outcome@ == grammar::line_frame(
            FrameView::Error { message: rest@ },
            header_total as int,
        ),
{
    ParseOutcome::Frame { frame: Frame::Error { message: rest }, consumed: header_total }
}

/// `CONNECT <options>`.
fn parse_connect(rest: &[u8], header_total: usize) -> (outcome: ParseOutcome<'_>)
    ensures
        outcome@ == grammar::options_line(
            FrameView::Connect { options: rest@ },
            rest@,
            header_total as int,
        ),
{
    if rest.len() == 0 {
        return ParseOutcome::Error(ParseError::BadHeader);
    }
    ParseOutcome::Frame { frame: Frame::Connect { options: rest }, consumed: header_total }
}

/// `INFO <options>`.
fn parse_info(rest: &[u8], header_total: usize) -> (outcome: ParseOutcome<'_>)
    ensures
        outcome@ == grammar::options_line(
            FrameView::Info { options: rest@ },
            rest@,
            header_total as int,
        ),
{
    if rest.len() == 0 {
        return ParseOutcome::Error(ParseError::BadHeader);
    }
    ParseOutcome::Frame { frame: Frame::Info { options: rest }, consumed: header_total }
}

/// `SUB <subject> [queue] <sid>`.
fn parse_sub(rest: &[u8], header_total: usize) -> (outcome: ParseOutcome<'_>)
    ensures
        outcome@ == grammar::sub_line(
            grammar::words(rest@),
            header_total as int,
        ),
{
    let mut tokens = TokenIter::new(rest);
    let subject = match tokens.next() {
        Some(t) => t,
        None => return ParseOutcome::Error(ParseError::BadHeader),
    };
    let second = match tokens.next() {
        Some(t) => t,
        None => return ParseOutcome::Error(ParseError::BadHeader),
    };
    let third = tokens.next();
    let extra = tokens.next();
    if extra.is_some() {
        return ParseOutcome::Error(ParseError::BadHeader);
    }
    let (queue_group, sid) = match third {
        Some(sid) => (Some(second), sid),
        None => (None, second),
    };
    ParseOutcome::Frame {
        frame: Frame::Sub { subject, queue_group, sid },
        consumed: header_total,
    }
}

/// `UNSUB <sid> [max_msgs]`.
fn parse_unsub(rest: &[u8], header_total: usize) -> (outcome: ParseOutcome<'_>)
    ensures
        outcome@ == grammar::unsub_line(
            grammar::words(rest@),
            header_total as int,
        ),
{
    let mut tokens = TokenIter::new(rest);
    let sid = match tokens.next() {
        Some(t) => t,
        None => return ParseOutcome::Error(ParseError::BadHeader),
    };
    let max_msgs: Option<u64> = match tokens.next() {
        Some(token) => match parse_u64(token) {
            Some(n) => Some(n),
            None => return ParseOutcome::Error(ParseError::MaxMsgsInvalid),
        },
        None => None,
    };
    if tokens.next().is_some() {
        return ParseOutcome::Error(ParseError::BadHeader);
    }
    ParseOutcome::Frame { frame: Frame::Unsub { sid, max_msgs }, consumed: header_total }
}

/// `PUB <subject> [reply-to] <#bytes>` and its body.
fn parse_pub<'a>(buf: &'a [u8], rest: &'a [u8], header_total: usize) -> (outcome: ParseOutcome<'a>)
    requires
        header_total <= buf@.len(),
    ensures
        outcome@ == grammar::pub_frame(
            buf@,
            grammar::words(rest@),
            header_total as int,
        ),
{
    let mut tokens = TokenIter::new(rest);
    let subject = match tokens.next() {
        Some(t) => t,
        None => return ParseOutcome::Error(ParseError::BadHeader),
    };
    let second = match tokens.next() {
        Some(t) => t,
        None => return ParseOutcome::Error(ParseError::BadHeader),
    };
    let third = tokens.next();
    if tokens.next().is_some() {
        return ParseOutcome::Error(ParseError::BadHeader);
    }
    let (reply_to, count_token) = match third {
        Some(count) => (Some(second), count),
        None => (None, second),
    };
    let payload_len: usize = match parse_usize(count_token) {
        Some(n) => n,
        None => return ParseOutcome::Error(ParseError::PayloadLengthInvalid),
    };
    match consume_payload(buf, header_total, payload_len) {
        Some((payload, total)) => ParseOutcome::Frame {
            frame: Frame::Pub { subject, reply_to, payload },
            consumed: total,
        },
        None => need_more_or_missing_crlf(buf, header_total, payload_len),
    }
}

/// `MSG <subject> <sid> [reply-to] <#bytes>` and its body.
fn parse_msg<'a>(buf: &'a [u8], rest: &'a [u8], header_total: usize) -> (outcome: ParseOutcome<'a>)
    requires
        header_total <= buf@.len(),
    ensures
        outcome@ == grammar::msg_frame(
            buf@,
            grammar::words(rest@),
            header_total as int,
        ),
{
    let mut tokens = TokenIter::new(rest);
    let subject = match tokens.next() {
        Some(t) => t,
        None => return ParseOutcome::Error(ParseError::BadHeader),
    };
    let sid = match tokens.next() {
        Some(t) => t,
        None => return ParseOutcome::Error(ParseError::BadHeader),
    };
    let third = match tokens.next() {
        Some(t) => t,
        None => return ParseOutcome::Error(ParseError::BadHeader),
    };
    let fourth = tokens.next();
    if tokens.next().is_some() {
        return ParseOutcome::Error(ParseError::BadHeader);
    }
    let (reply_to, count_token) = match fourth {
        Some(count) => (Some(third), count),
        None => (None, third),
    };
    let payload_len: usize = match parse_usize(count_token) {
        Some(n) => n,
        None => return ParseOutcome::Error(ParseError::PayloadLengthInvalid),
    };
    match consume_payload(buf, header_total, payload_len) {
        Some((payload, total)) => ParseOutcome::Frame {
            frame: Frame::Msg { subject, sid, reply_to, payload },
            consumed: total,
        },
        None => need_more_or_missing_crlf(buf, header_total, payload_len),
    }
}

/// Finds the first line terminator.
pub fn find_crlf(buf: &[u8]) -> (end: Option<usize>)
    ensures
        end is Some == (grammar::line_end(buf@) is Some),
        end is Some ==> {
            &&& grammar::line_end(buf@) == Some(end->0 as int)
            &&& grammar::is_line_end(buf@, end->0 as int)
            &&& end->0 + 2 <= buf.len()
        },
{
    if buf.len() == 0 {
        return None;
    }
    let last: usize = buf.len() - 1;
    let mut i: usize = 0;
    while i < last
        invariant
            last == buf@.len() - 1,
            i <= last,
            forall|j: int| 0 <= j < i ==> !grammar::crlf_at(buf@, j),
        decreases last - i,
    {
        if buf[i] == CR && buf[i + 1] == LF {
            proof {
                grammar::lemma_line_end(buf@, i as int);
            }
            return Some(i);
        }
        i += 1;
    }
    None
}

/// True for a byte that separates words.
fn is_separator(b: u8) -> (r: bool)
    ensures
        r == grammar::is_blank(b),
{
    b == SP || b == TAB
}

/// Length of the word that `s` begins with.
fn word_end(s: &[u8]) -> (end: usize)
    ensures
        end == grammar::word_len(s@),
        end <= s@.len(),
{
    let mut i: usize = 0;
    while i < s.len() && !is_separator(s[i])
        invariant
            i <= s@.len(),
            forall|j: int| 0 <= j < i ==> !grammar::is_blank(#[trigger] s@[j]),
        decreases s@.len() - i,
    {
        i += 1;
    }
    proof {
        grammar::lemma_word_len_is(s@, i as int);
    }
    i
}

/// Splits a header line into its verb and what follows.
///
/// Exactly one separator byte behind the verb is consumed. `-ERR`, `CONNECT`
/// and `INFO` take the rest verbatim, so blanks that belong to their body are
/// kept; the verbs with several fields skip further blanks word by word.
fn split_verb(line: &[u8]) -> (r: (&[u8], &[u8]))
    ensures
        r.0@ == grammar::verb_of(line@),
        r.1@ == grammar::rest_of(line@),
{
    let end: usize = word_end(line);
    let verb = &line[0..end];
    assert(verb@ =~= grammar::verb_of(line@));
    if end < line.len() {
        let rest = &line[end + 1..line.len()];
        assert(rest@ =~= grammar::rest_of(line@));
        (verb, rest)
    } else {
        let rest = &line[end..end];
        assert(rest@ =~= grammar::rest_of(line@));
        (verb, rest)
    }
}

/// Drops the blanks that `s` begins with.
fn trim_leading_spaces(s: &[u8]) -> (r: &[u8])
    ensures
        r@ == grammar::trimmed(s@),
{
    let mut i: usize = 0;
    while i < s.len() && is_separator(s[i])
        invariant
            i <= s@.len(),
            forall|j: int| 0 <= j < i ==> grammar::is_blank(#[trigger] s@[j]),
        decreases s@.len() - i,
    {
        i += 1;
    }
    proof {
        grammar::lemma_blanks_are(s@, i as int);
    }
    let r = &s[i..s.len()];
    assert(r@ =~= grammar::trimmed(s@));
    r
}

/// Walks the blank-separated words of a single header line.
struct TokenIter<'a> {
    rest: &'a [u8],
}

impl View for TokenIter<'_> {
    type V = Seq<Seq<u8>>;

    /// The words still to come.
    closed spec fn view(&self) -> Seq<Seq<u8>> {
        grammar::words(self.rest@)
    }
}

impl<'a> TokenIter<'a> {
    fn new(rest: &'a [u8]) -> (r: Self)
        ensures
            r@ == grammar::words(rest@),
    {
        Self { rest }
    }

    /// The next word, if there is one.
    fn next(&mut self) -> (token: Option<&'a [u8]>)
        ensures
            token is Some == (old(self)@.len() > 0),
            token is Some ==> token->0@ == old(self)@[0] && final(self)@ == old(self)@.skip(1),
            token is None ==> final(self)@ == old(self)@,
    {
        let ghost line = self.rest@;
        self.rest = trim_leading_spaces(self.rest);
        if self.rest.len() == 0 {
            assert(self.rest@ =~= Seq::<u8>::empty());
            return None;
        }
        let end: usize = word_end(self.rest);
        let token = &self.rest[0..end];
        let tail = &self.rest[end..self.rest.len()];
        proof {
            let t = self.rest@;
            assert(token@ =~= t.take(end as int));
            assert(tail@ =~= t.skip(end as int));
            assert(grammar::words(line).skip(1) =~= grammar::words(tail@));
        }
        self.rest = tail;
        Some(token)
    }
}

/// Reads a decimal byte count.
fn parse_usize(bytes: &[u8]) -> (n: Option<usize>)
    ensures
        n is Some == (grammar::number(bytes@, usize::MAX as int) is Some),
        n is Some ==> grammar::number(bytes@, usize::MAX as int) == Some(n->0 as int),
{
    if bytes.len() == 0 {
        return None;
    }
    let mut n: usize = 0;
    let mut i: usize = 0;
    while i < bytes.len()
        invariant
            i <= bytes@.len(),
            forall|j: int| 0 <= j < i ==> grammar::is_digit(#[trigger] bytes@[j]),
            n == grammar::decimal_value(bytes@.take(i as int)),
        decreases bytes@.len() - i,
    {
        let b: u8 = bytes[i];
        if b < ZERO || b > ZERO + 9 {
            assert(!grammar::is_digit(bytes@[i as int]));
            return None;
        }
        proof {
            grammar::lemma_decimal_step(bytes@, i as int);
            if grammar::is_decimal(bytes@) {
                grammar::lemma_decimal_grows(bytes@, i + 1);
            }
        }
        let tenfold: usize = match n.checked_mul(10) {
            Some(m) => m,
            None => return None,
        };
        n = match tenfold.checked_add((b - ZERO) as usize) {
            Some(m) => m,
            None => return None,
        };
        i += 1;
    }
    assert(bytes@.take(i as int) =~= bytes@);
    Some(n)
}

/// Reads a decimal message count.
fn parse_u64(bytes: &[u8]) -> (n: Option<u64>)
    ensures
        n is Some == (grammar::number(bytes@, u64::MAX as int) is Some),
        n is Some ==> grammar::number(bytes@, u64::MAX as int) == Some(n->0 as int),
{
    if bytes.len() == 0 {
        return None;
    }
    let mut n: u64 = 0;
    let mut i: usize = 0;
    while i < bytes.len()
        invariant
            i <= bytes@.len(),
            forall|j: int| 0 <= j < i ==> grammar::is_digit(#[trigger] bytes@[j]),
            n == grammar::decimal_value(bytes@.take(i as int)),
        decreases bytes@.len() - i,
    {
        let b: u8 = bytes[i];
        if b < ZERO || b > ZERO + 9 {
            assert(!grammar::is_digit(bytes@[i as int]));
            return None;
        }
        proof {
            grammar::lemma_decimal_step(bytes@, i as int);
            if grammar::is_decimal(bytes@) {
                grammar::lemma_decimal_grows(bytes@, i + 1);
            }
        }
        let tenfold: u64 = match n.checked_mul(10) {
            Some(m) => m,
            None => return None,
        };
        n = match tenfold.checked_add((b - ZERO) as u64) {
            Some(m) => m,
            None => return None,
        };
        i += 1;
    }
    assert(bytes@.take(i as int) =~= bytes@);
    Some(n)
}

/// On success, returns the payload slice and the total bytes consumed
/// (header + payload + trailing CRLF). Returns `None` if the buffer does
/// not hold the payload with its trailing CRLF.
fn consume_payload(buf: &[u8], header_total: usize, payload_len: usize) -> (r: Option<(&[u8], usize)>)
    requires
        header_total <= buf@.len(),
    ensures
        r is Some == {
            &&& header_total + payload_len + 2 <= usize::MAX
            &&& grammar::crlf_at(buf@, header_total + payload_len)
        },
        r matches Some((payload, total)) ==> {
            &&& payload@ == buf@.subrange(header_total as int, header_total + payload_len)
            &&& total == header_total + payload_len + 2
        },
{
    let payload_end: usize = match header_total.checked_add(payload_len) {
        Some(n) => n,
        None => return None,
    };
    let total: usize = match payload_end.checked_add(2) {
        Some(n) => n,
        None => return None,
    };
    if buf.len() < total {
        return None;
    }
    if buf[payload_end] != CR || buf[payload_end + 1] != LF {
        return None;
    }
    Some((&buf[header_total..payload_end], total))
}

/// Tells why [`consume_payload`] found no body.
fn need_more_or_missing_crlf(
    buf: &[u8],
    header_total: usize,
    payload_len: usize,
) -> (outcome: ParseOutcome<'_>)
    ensures
        outcome@ == (if header_total + payload_len + 2 > usize::MAX {
            OutcomeView::Error(ParseError::PayloadLengthInvalid)
        } else if buf@.len() < header_total + payload_len + 2 {
            OutcomeView::NeedMore
        } else {
            OutcomeView::Error(ParseError::MissingTrailingCrlf)
        }),
{
    let payload_end: usize = match header_total.checked_add(payload_len) {
        Some(n) => n,
        None => return ParseOutcome::Error(ParseError::PayloadLengthInvalid),
    };
    let total: usize = match payload_end.checked_add(2) {
        Some(n) => n,
        None => return ParseOutcome::Error(ParseError::PayloadLengthInvalid),
    };
    if buf.len() < total {
        ParseOutcome::NeedMore
    } else {
        ParseOutcome::Error(ParseError::MissingTrailingCrlf)
    }
}

} // verus!
