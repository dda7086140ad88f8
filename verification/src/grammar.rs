//! The wire grammar as mathematics: lines, words and decimal numbers.
//!
//! Both directions of the codec are stated over these definitions.

use crate::bytes;
use crate::error::ParseError;
use crate::frame::FrameView;
use vstd::prelude::*;

verus! {

/// Carriage return.
pub const CR: u8 = 13;

/// Line feed.
pub const LF: u8 = 10;

/// The space that separates the fields of a header line.
pub const SP: u8 = 32;

/// The tab, which separates fields as well.
pub const TAB: u8 = 9;

/// The digit zero.
pub const ZERO: u8 = 48;

/// The line terminator.
pub open spec fn crlf() -> Seq<u8> {
    seq![CR, LF]
}

/// A byte that separates words.
pub open spec fn is_blank(b: u8) -> bool {
    b == SP || b == TAB
}

/// A line terminator starts at `i`.
pub open spec fn crlf_at(buf: Seq<u8>, i: int) -> bool {
    0 <= i && i + 1 < buf.len() && buf[i] == CR && buf[i + 1] == LF
}

/// The first line of `buf` is `buf[..end]`.
pub open spec fn is_line_end(buf: Seq<u8>, end: int) -> bool {
    crlf_at(buf, end) && forall|j: int| 0 <= j < end ==> !crlf_at(buf, j)
}

/// Where the first line terminator starts, if there is one.
pub open spec fn line_end(buf: Seq<u8>) -> Option<int> {
    if exists|i: int| is_line_end(buf, i) {
        Some(choose|i: int| is_line_end(buf, i))
    } else {
        None
    }
}

/// How many blanks `s` begins with.
pub open spec fn blanks(s: Seq<u8>) -> nat
    decreases s.len(),
{
    if s.len() > 0 && is_blank(s[0]) {
        1 + blanks(s.skip(1))
    } else {
        0
    }
}

/// How many non-blank bytes `s` begins with.
pub open spec fn word_len(s: Seq<u8>) -> nat
    decreases s.len(),
{
    if s.len() > 0 && !is_blank(s[0]) {
        1 + word_len(s.skip(1))
    } else {
        0
    }
}

/// `s` without the blanks it begins with.
pub open spec fn trimmed(s: Seq<u8>) -> Seq<u8> {
    s.skip(blanks(s) as int)
}

/// The blank-separated words of `s`.
pub open spec fn words(s: Seq<u8>) -> Seq<Seq<u8>>
    decreases s.len(),
    via words_decreases
{
    let t = trimmed(s);
    if t.len() == 0 {
        Seq::empty()
    } else {
        seq![t.take(word_len(t) as int)] + words(t.skip(word_len(t) as int))
    }
}

#[via_fn]
proof fn words_decreases(s: Seq<u8>) {
    lemma_blanks(s);
    lemma_word_len(trimmed(s));
}

/// The first word of a line: everything before the first blank.
pub open spec fn verb_of(line: Seq<u8>) -> Seq<u8> {
    line.take(word_len(line) as int)
}

/// What follows the verb and the one blank behind it.
pub open spec fn rest_of(line: Seq<u8>) -> Seq<u8> {
    if word_len(line) < line.len() {
        line.skip(word_len(line) as int + 1)
    } else {
        Seq::empty()
    }
}

/// An ASCII decimal digit.
pub open spec fn is_digit(b: u8) -> bool {
    ZERO <= b <= ZERO + 9
}

/// `s` is a non-empty string of decimal digits.
pub open spec fn is_decimal(s: Seq<u8>) -> bool {
    s.len() > 0 && forall|i: int| 0 <= i < s.len() ==> is_digit(#[trigger] s[i])
}

/// The number that a string of decimal digits denotes.
pub open spec fn decimal_value(s: Seq<u8>) -> int
    decreases s.len(),
{
    if s.len() == 0 {
        0
    } else {
        decimal_value(s.drop_last()) * 10 + (s.last() - ZERO)
    }
}

/// Reads a decimal number that is at most `max`.
pub open spec fn number(s: Seq<u8>, max: int) -> Option<int> {
    if is_decimal(s) && decimal_value(s) <= max {
        Some(decimal_value(s))
    } else {
        None
    }
}

/// The canonical decimal form of a number: no leading zeros.
pub open spec fn decimal(n: nat) -> Seq<u8>
    decreases n,
{
    if n < 10 {
        seq![(ZERO + n) as u8]
    } else {
        decimal(n / 10).push((ZERO + n % 10) as u8)
    }
}

/// What [`crate::parse::parse_frame`] finds at the head of a buffer.
#[verifier::ext_equal]
pub enum OutcomeView {
    Frame { frame: FrameView, consumed: int },
    NeedMore,
    Error(ParseError),
}

/// A header line that makes a frame by itself.
pub open spec fn line_frame(frame: FrameView, header: int) -> OutcomeView {
    OutcomeView::Frame { frame, consumed: header }
}

/// A verb that takes no arguments.
pub open spec fn bare_verb(frame: FrameView, rest: Seq<u8>, header: int) -> OutcomeView {
    if rest.len() == 0 {
        line_frame(frame, header)
    } else {
        OutcomeView::Error(ParseError::BadHeader)
    }
}

/// `SUB <subject> [queue] <sid>`.
pub open spec fn sub_line(w: Seq<Seq<u8>>, header: int) -> OutcomeView {
    if w.len() == 2 {
        line_frame(FrameView::Sub { subject: w[0], queue_group: None, sid: w[1] }, header)
    } else if w.len() == 3 {
        line_frame(FrameView::Sub { subject: w[0], queue_group: Some(w[1]), sid: w[2] }, header)
    } else {
        OutcomeView::Error(ParseError::BadHeader)
    }
}

/// `UNSUB <sid> [max_msgs]`.
pub open spec fn unsub_line(w: Seq<Seq<u8>>, header: int) -> OutcomeView {
    if w.len() >= 2 && number(w[1], u64::MAX as int) is None {
        OutcomeView::Error(ParseError::MaxMsgsInvalid)
    } else if w.len() == 1 {
        line_frame(FrameView::Unsub { sid: w[0], max_msgs: None }, header)
    } else if w.len() == 2 {
        line_frame(
            FrameView::Unsub {
                sid: w[0],
                max_msgs: Some(number(w[1], u64::MAX as int)->0 as u64),
            },
            header,
        )
    } else {
        OutcomeView::Error(ParseError::BadHeader)
    }
}

/// The body of a frame whose header ends before `header` and announces
/// `count` payload bytes.
pub open spec fn body(
    buf: Seq<u8>,
    header: int,
    count: Seq<u8>,
    frame: spec_fn(Seq<u8>) -> FrameView,
) -> OutcomeView {
    match number(count, usize::MAX as int) {
        None => OutcomeView::Error(ParseError::PayloadLengthInvalid),
        Some(n) => {
            if header + n + 2 > usize::MAX {
                OutcomeView::Error(ParseError::PayloadLengthInvalid)
            } else if buf.len() < header + n + 2 {
                OutcomeView::NeedMore
            } else if !crlf_at(buf, header + n) {
                OutcomeView::Error(ParseError::MissingTrailingCrlf)
            } else {
                OutcomeView::Frame {
                    frame: frame(buf.subrange(header, header + n)),
                    consumed: header + n + 2,
                }
            }
        },
    }
}

/// `PUB <subject> [reply-to] <#bytes>` and its body.
pub open spec fn pub_frame(buf: Seq<u8>, w: Seq<Seq<u8>>, header: int) -> OutcomeView {
    if w.len() == 2 {
        body(
            buf,
            header,
            w[1],
            |payload: Seq<u8>| FrameView::Pub { subject: w[0], reply_to: None, payload },
        )
    } else if w.len() == 3 {
        body(
            buf,
            header,
            w[2],
            |payload: Seq<u8>| FrameView::Pub { subject: w[0], reply_to: Some(w[1]), payload },
        )
    } else {
        OutcomeView::Error(ParseError::BadHeader)
    }
}

/// `MSG <subject> <sid> [reply-to] <#bytes>` and its body.
pub open spec fn msg_frame(buf: Seq<u8>, w: Seq<Seq<u8>>, header: int) -> OutcomeView {
    if w.len() == 3 {
        body(
            buf,
            header,
            w[2],
            |payload: Seq<u8>|
                FrameView::Msg { subject: w[0], sid: w[1], reply_to: None, payload },
        )
    } else if w.len() == 4 {
        body(
            buf,
            header,
            w[3],
            |payload: Seq<u8>|
                FrameView::Msg { subject: w[0], sid: w[1], reply_to: Some(w[2]), payload },
        )
    } else {
        OutcomeView::Error(ParseError::BadHeader)
    }
}

/// A verb whose argument is the rest of the line, verbatim and non-empty.
pub open spec fn options_line(frame: FrameView, rest: Seq<u8>, header: int) -> OutcomeView {
    if rest.len() == 0 {
        OutcomeView::Error(ParseError::BadHeader)
    } else {
        line_frame(frame, header)
    }
}

/// The frame that the header line `line` of `buf` introduces.
pub open spec fn frame_of(buf: Seq<u8>, line: Seq<u8>) -> OutcomeView {
    let verb = verb_of(line);
    let rest = rest_of(line);
    let header: int = line.len() as int + 2;
    if verb == bytes::ascii("PING") {
        bare_verb(FrameView::Ping, rest, header)
    } else if verb == bytes::ascii("PONG") {
        bare_verb(FrameView::Pong, rest, header)
    } else if verb == bytes::ascii("+OK") {
        bare_verb(FrameView::Ack, rest, header)
    } else if verb == bytes::ascii("-ERR") {
        line_frame(FrameView::Error { message: rest }, header)
    } else if verb == bytes::ascii("CONNECT") {
        options_line(FrameView::Connect { options: rest }, rest, header)
    } else if verb == bytes::ascii("INFO") {
        options_line(FrameView::Info { options: rest }, rest, header)
    } else if verb == bytes::ascii("SUB") {
        sub_line(words(rest), header)
    } else if verb == bytes::ascii("UNSUB") {
        unsub_line(words(rest), header)
    } else if verb == bytes::ascii("PUB") {
        pub_frame(buf, words(rest), header)
    } else if verb == bytes::ascii("MSG") {
        msg_frame(buf, words(rest), header)
    } else {
        OutcomeView::Error(ParseError::UnknownVerb)
    }
}

/// What stands at the head of `buf`.
pub open spec fn parsed(buf: Seq<u8>) -> OutcomeView {
    match line_end(buf) {
        None => OutcomeView::NeedMore,
        Some(end) => frame_of(buf, buf.take(end)),
    }
}

/// The first line end is the only one with no line end before it.
pub proof fn lemma_line_end(buf: Seq<u8>, end: int)
    requires
        is_line_end(buf, end),
    ensures
        line_end(buf) == Some(end),
{
    let e = choose|i: int| is_line_end(buf, i);
    assert(is_line_end(buf, e));
    assert(e == end);
}

/// Blanks are counted within the string; every byte counted is one, and the
/// byte behind them is not.
pub proof fn lemma_blanks(s: Seq<u8>)
    ensures
        blanks(s) <= s.len(),
        forall|i: int| 0 <= i < blanks(s) ==> is_blank(#[trigger] s[i]),
        blanks(s) < s.len() ==> !is_blank(s[blanks(s) as int]),
    decreases s.len(),
{
    if s.len() > 0 && is_blank(s[0]) {
        let t = s.skip(1);
        lemma_blanks(t);
        assert forall|i: int| 0 <= i < blanks(s) implies is_blank(#[trigger] s[i]) by {
            if i > 0 {
                assert(t[i - 1] == s[i]);
            }
        }
        if blanks(s) < s.len() {
            assert(t[blanks(t) as int] == s[blanks(s) as int]);
        }
    }
}

/// A word is counted within the string; no byte counted is a blank, and the
/// byte behind them is one.
pub proof fn lemma_word_len(s: Seq<u8>)
    ensures
        word_len(s) <= s.len(),
        forall|i: int| 0 <= i < word_len(s) ==> !is_blank(#[trigger] s[i]),
        word_len(s) < s.len() ==> is_blank(s[word_len(s) as int]),
        s.len() > 0 && !is_blank(s[0]) ==> word_len(s) > 0,
    decreases s.len(),
{
    if s.len() > 0 && !is_blank(s[0]) {
        let t = s.skip(1);
        lemma_word_len(t);
        assert forall|i: int| 0 <= i < word_len(s) implies !is_blank(#[trigger] s[i]) by {
            if i > 0 {
                assert(t[i - 1] == s[i]);
            }
        }
        if word_len(s) < s.len() {
            assert(t[word_len(t) as int] == s[word_len(s) as int]);
        }
    }
}

/// Reading one more digit.
pub proof fn lemma_decimal_step(s: Seq<u8>, i: int)
    requires
        0 <= i < s.len(),
    ensures
        decimal_value(s.take(i + 1)) == decimal_value(s.take(i)) * 10 + (s[i] - ZERO),
{
    let t = s.take(i + 1);
    assert(t.drop_last() =~= s.take(i));
    assert(t.last() == s[i]);
}

/// A number is at least what its leading digits denote.
pub proof fn lemma_decimal_grows(s: Seq<u8>, i: int)
    requires
        is_decimal(s),
        0 <= i <= s.len(),
    ensures
        0 <= decimal_value(s.take(i)) <= decimal_value(s),
    decreases s.len() - i, i,
{
    if i < s.len() {
        lemma_decimal_grows(s, i + 1);
        lemma_decimal_step(s, i);
        lemma_decimal_nonneg(s, i);
    } else {
        assert(s.take(i) =~= s);
        lemma_decimal_nonneg(s, i);
    }
}

/// A string of digits denotes a natural number.
proof fn lemma_decimal_nonneg(s: Seq<u8>, i: int)
    requires
        is_decimal(s),
        0 <= i <= s.len(),
    ensures
        0 <= decimal_value(s.take(i)),
    decreases i,
{
    if i > 0 {
        lemma_decimal_nonneg(s, i - 1);
        lemma_decimal_step(s, i - 1);
        assert(is_digit(s[i - 1]));
    }
}

/// A run of blanks followed by a non-blank, or by the end, is counted in full.
pub proof fn lemma_blanks_are(s: Seq<u8>, n: int)
    requires
        0 <= n <= s.len(),
        forall|i: int| 0 <= i < n ==> is_blank(#[trigger] s[i]),
        n < s.len() ==> !is_blank(s[n]),
    ensures
        blanks(s) == n,
{
    lemma_blanks(s);
    if blanks(s) < n {
        assert(is_blank(s[blanks(s) as int]));
    }
}

/// A run of non-blanks followed by a blank, or by the end, is counted in full.
pub proof fn lemma_word_len_is(s: Seq<u8>, n: int)
    requires
        0 <= n <= s.len(),
        forall|i: int| 0 <= i < n ==> !is_blank(#[trigger] s[i]),
        n < s.len() ==> is_blank(s[n]),
    ensures
        word_len(s) == n,
{
    lemma_word_len(s);
    if word_len(s) < n {
        assert(!is_blank(s[word_len(s) as int]));
    }
}

} // verus!
