//! What the two directions of the codec promise together.

use crate::bytes;
use crate::emit;
use crate::error::{EmitError, ParseError};
use crate::frame::FrameView;
use crate::grammar::{self, OutcomeView, SP};
use vstd::prelude::*;

verus! {

/// No line terminator stands inside `s`.
pub open spec fn on_one_line(s: Seq<u8>) -> bool {
    forall|i: int| !grammar::crlf_at(s, i)
}

/// `s` can be one field of a header line.
pub open spec fn is_word(s: Seq<u8>) -> bool {
    &&& s.len() > 0
    &&& on_one_line(s)
    &&& forall|i: int| 0 <= i < s.len() ==> !grammar::is_blank(#[trigger] s[i])
}

/// `field` is absent or can be one field of a header line.
pub open spec fn is_optional_word(field: Option<Seq<u8>>) -> bool {
    field matches Some(s) ==> is_word(s)
}

/// A frame that the protocol can carry.
pub open spec fn legal(frame: FrameView) -> bool {
    match frame {
        FrameView::Ping | FrameView::Pong | FrameView::Ack => true,
        FrameView::Error { message } => on_one_line(message),
        FrameView::Connect { options } => options.len() > 0 && on_one_line(options),
        FrameView::Info { options } => options.len() > 0 && on_one_line(options),
        FrameView::Sub { subject, queue_group, sid } => is_word(subject) && is_optional_word(
            queue_group,
        ) && is_word(sid),
        FrameView::Unsub { sid, max_msgs } => is_word(sid),
        FrameView::Pub { subject, reply_to, payload } => is_word(subject) && is_optional_word(
            reply_to,
        ),
        FrameView::Msg { subject, sid, reply_to, payload } => is_word(subject) && is_word(sid)
            && is_optional_word(reply_to),
    }
}

/// Words with one space between each two.
spec fn spaced(ws: Seq<Seq<u8>>) -> Seq<u8>
    decreases ws.len(),
{
    if ws.len() == 0 {
        Seq::empty()
    } else if ws.len() == 1 {
        ws[0]
    } else {
        ws[0] + (seq![SP] + spaced(ws.skip(1)))
    }
}

spec fn all_words(ws: Seq<Seq<u8>>) -> bool {
    forall|i: int| 0 <= i < ws.len() ==> is_word(#[trigger] ws[i])
}

/// Blanks in front change nothing.
proof fn lemma_words_skip_blank(s: Seq<u8>)
    ensures
        grammar::words(seq![SP] + s) == grammar::words(s),
{
    let t = seq![SP] + s;
    assert(t.skip(1) =~= s);
    assert(grammar::blanks(t) == 1 + grammar::blanks(s));
    grammar::lemma_blanks(s);
    assert(grammar::trimmed(t) =~= grammar::trimmed(s));
}

/// A word in front is the first of the words.
proof fn lemma_words_first(w: Seq<u8>, rest: Seq<u8>)
    requires
        w.len() > 0,
        forall|i: int| 0 <= i < w.len() ==> !grammar::is_blank(#[trigger] w[i]),
        rest.len() > 0 ==> grammar::is_blank(rest[0]),
    ensures
        grammar::words(w + rest) == seq![w] + grammar::words(rest),
{
    let s = w + rest;
    assert(s[0] == w[0]);
    grammar::lemma_blanks_are(s, 0);
    assert(grammar::trimmed(s) =~= s);
    assert forall|i: int| 0 <= i < w.len() implies !grammar::is_blank(#[trigger] s[i]) by {
        assert(s[i] == w[i]);
    }
    grammar::lemma_word_len_is(s, w.len() as int);
    assert(s.take(w.len() as int) =~= w);
    assert(s.skip(w.len() as int) =~= rest);
}

/// Splitting gives back the words that were joined.
proof fn lemma_words_spaced(ws: Seq<Seq<u8>>)
    requires
        all_words(ws),
    ensures
        grammar::words(spaced(ws)) == ws,
    decreases ws.len(),
{
    if ws.len() == 0 {
        assert(grammar::words(spaced(ws)) =~= ws);
    } else {
        let tail = ws.skip(1);
        assert(all_words(tail));
        lemma_words_spaced(tail);
        if ws.len() == 1 {
            assert(ws[0] + Seq::<u8>::empty() =~= ws[0]);
            lemma_words_first(ws[0], Seq::empty());
            assert(tail =~= Seq::<Seq<u8>>::empty());
        } else {
            lemma_words_first(ws[0], seq![SP] + spaced(tail));
            lemma_words_skip_blank(spaced(tail));
        }
        assert(seq![ws[0]] + tail =~= ws);
    }
}

/// A space between two lines makes no line terminator.
proof fn lemma_one_line_joined(a: Seq<u8>, b: Seq<u8>)
    requires
        on_one_line(a),
        on_one_line(b),
    ensures
        on_one_line(a + (seq![SP] + b)),
{
    let s = a + (seq![SP] + b);
    assert forall|i: int| !grammar::crlf_at(s, i) by {
        if grammar::crlf_at(s, i) {
            if i + 1 < a.len() {
                assert(grammar::crlf_at(a, i));
            } else if i > a.len() {
                assert(grammar::crlf_at(b, i - a.len() - 1));
            }
        }
    }
}

proof fn lemma_one_line_spaced(ws: Seq<Seq<u8>>)
    requires
        all_words(ws),
    ensures
        on_one_line(spaced(ws)),
    decreases ws.len(),
{
    if ws.len() == 1 {
        assert(is_word(ws[0]));
    } else if ws.len() > 1 {
        assert(is_word(ws[0]));
        assert(all_words(ws.skip(1)));
        lemma_one_line_spaced(ws.skip(1));
        lemma_one_line_joined(ws[0], spaced(ws.skip(1)));
    }
}

/// A line in front of its terminator is found whole.
proof fn lemma_first_line(line: Seq<u8>, tail: Seq<u8>)
    requires
        on_one_line(line),
    ensures
        grammar::line_end(line + grammar::crlf() + tail) == Some(line.len() as int),
        (line + grammar::crlf() + tail).take(line.len() as int) == line,
{
    let buf = line + grammar::crlf() + tail;
    assert(buf.take(line.len() as int) =~= line);
    assert forall|j: int| 0 <= j < line.len() implies !grammar::crlf_at(buf, j) by {
        if grammar::crlf_at(buf, j) && j + 1 < line.len() {
            assert(grammar::crlf_at(line, j));
        }
    }
    assert(grammar::is_line_end(buf, line.len() as int));
    grammar::lemma_line_end(buf, line.len() as int);
}

/// What a line of a verb, a space and a rest is split into.
proof fn lemma_verb(verb: Seq<u8>, rest: Seq<u8>)
    requires
        is_word(verb),
    ensures
        grammar::verb_of(verb + (seq![SP] + rest)) == verb,
        grammar::rest_of(verb + (seq![SP] + rest)) == rest,
{
    let line = verb + (seq![SP] + rest);
    assert forall|i: int| 0 <= i < verb.len() implies !grammar::is_blank(#[trigger] line[i]) by {
        assert(line[i] == verb[i]);
    }
    grammar::lemma_word_len_is(line, verb.len() as int);
    assert(line.take(verb.len() as int) =~= verb);
    assert(line.skip(verb.len() as int + 1) =~= rest);
}

/// What a line that is only a verb is split into.
proof fn lemma_bare_verb(verb: Seq<u8>)
    requires
        is_word(verb),
    ensures
        grammar::verb_of(verb) == verb,
        grammar::rest_of(verb).len() == 0,
{
    grammar::lemma_word_len_is(verb, verb.len() as int);
    assert(verb.take(verb.len() as int) =~= verb);
}

/// The decimal form of a number reads back as that number.
pub proof fn lemma_decimal(n: nat)
    ensures
        grammar::is_decimal(grammar::decimal(n)),
        grammar::decimal_value(grammar::decimal(n)) == n,
    decreases n,
{
    let d = grammar::decimal(n);
    if n < 10 {
        assert(d.drop_last() =~= Seq::<u8>::empty());
        assert(grammar::decimal_value(d.drop_last()) == 0);
    } else {
        lemma_decimal(n / 10);
        assert(d.drop_last() =~= grammar::decimal(n / 10));
        assert forall|i: int| 0 <= i < d.len() implies grammar::is_digit(#[trigger] d[i]) by {
            if i < d.len() - 1 {
                assert(d[i] == grammar::decimal(n / 10)[i]);
            }
        }
    }
}

proof fn lemma_decimal_word(n: nat)
    ensures
        is_word(grammar::decimal(n)),
{
    lemma_decimal(n);
    let d = grammar::decimal(n);
    assert forall|i: int| 0 <= i < d.len() implies !grammar::is_blank(#[trigger] d[i]) by {
        assert(grammar::is_digit(d[i]));
    }
    assert forall|i: int| !grammar::crlf_at(d, i) by {
        if grammar::crlf_at(d, i) {
            assert(grammar::is_digit(d[i]));
        }
    }
}

/// Each verb is a word.
proof fn lemma_verbs()
    ensures
        is_word(bytes::ascii("PING")),
        is_word(bytes::ascii("PONG")),
        is_word(bytes::ascii("+OK")),
        is_word(bytes::ascii("-ERR")),
        is_word(bytes::ascii("CONNECT")),
        is_word(bytes::ascii("INFO")),
        is_word(bytes::ascii("SUB")),
        is_word(bytes::ascii("UNSUB")),
        is_word(bytes::ascii("PUB")),
        is_word(bytes::ascii("MSG")),
{
    reveal_strlit("PING");
    reveal_strlit("PONG");
    reveal_strlit("+OK");
    reveal_strlit("-ERR");
    reveal_strlit("CONNECT");
    reveal_strlit("INFO");
    reveal_strlit("SUB");
    reveal_strlit("UNSUB");
    reveal_strlit("PUB");
    reveal_strlit("MSG");
}

/// No two verbs are the same.
proof fn lemma_verbs_differ()
    ensures
        bytes::ascii("PING")[0] == 80 && bytes::ascii("PING")[1] == 73,
        bytes::ascii("PONG")[0] == 80 && bytes::ascii("PONG")[1] == 79,
        bytes::ascii("+OK")[0] == 43,
        bytes::ascii("-ERR")[0] == 45,
        bytes::ascii("CONNECT")[0] == 67,
        bytes::ascii("INFO")[0] == 73,
        bytes::ascii("SUB")[0] == 83,
        bytes::ascii("UNSUB")[0] == 85,
        bytes::ascii("PUB")[0] == 80 && bytes::ascii("PUB")[1] == 85,
        bytes::ascii("MSG")[0] == 77,
{
    reveal_strlit("PING");
    reveal_strlit("PONG");
    reveal_strlit("+OK");
    reveal_strlit("-ERR");
    reveal_strlit("CONNECT");
    reveal_strlit("INFO");
    reveal_strlit("SUB");
    reveal_strlit("UNSUB");
    reveal_strlit("PUB");
    reveal_strlit("MSG");
}

/// The texts that a frame starts with, taken apart.
proof fn lemma_heads()
    ensures
        bytes::ascii("PING\r\n") == bytes::ascii("PING") + grammar::crlf(),
        bytes::ascii("PONG\r\n") == bytes::ascii("PONG") + grammar::crlf(),
        bytes::ascii("+OK\r\n") == bytes::ascii("+OK") + grammar::crlf(),
        bytes::ascii("-ERR ") == bytes::ascii("-ERR") + seq![SP],
        bytes::ascii("CONNECT ") == bytes::ascii("CONNECT") + seq![SP],
        bytes::ascii("INFO ") == bytes::ascii("INFO") + seq![SP],
        bytes::ascii("SUB ") == bytes::ascii("SUB") + seq![SP],
        bytes::ascii("UNSUB ") == bytes::ascii("UNSUB") + seq![SP],
        bytes::ascii("PUB ") == bytes::ascii("PUB") + seq![SP],
        bytes::ascii("MSG ") == bytes::ascii("MSG") + seq![SP],
{
    reveal_strlit("PING");
    reveal_strlit("PONG");
    reveal_strlit("+OK");
    reveal_strlit("-ERR");
    reveal_strlit("CONNECT");
    reveal_strlit("INFO");
    reveal_strlit("SUB");
    reveal_strlit("UNSUB");
    reveal_strlit("PUB");
    reveal_strlit("MSG");
    reveal_strlit("PING\r\n");
    reveal_strlit("PONG\r\n");
    reveal_strlit("+OK\r\n");
    reveal_strlit("-ERR ");
    reveal_strlit("CONNECT ");
    reveal_strlit("INFO ");
    reveal_strlit("SUB ");
    reveal_strlit("UNSUB ");
    reveal_strlit("PUB ");
    reveal_strlit("MSG ");
    assert(bytes::ascii("PING\r\n") =~= bytes::ascii("PING") + grammar::crlf());
    assert(bytes::ascii("PONG\r\n") =~= bytes::ascii("PONG") + grammar::crlf());
    assert(bytes::ascii("+OK\r\n") =~= bytes::ascii("+OK") + grammar::crlf());
    assert(bytes::ascii("-ERR ") =~= bytes::ascii("-ERR") + seq![SP]);
    assert(bytes::ascii("CONNECT ") =~= bytes::ascii("CONNECT") + seq![SP]);
    assert(bytes::ascii("INFO ") =~= bytes::ascii("INFO") + seq![SP]);
    assert(bytes::ascii("SUB ") =~= bytes::ascii("SUB") + seq![SP]);
    assert(bytes::ascii("UNSUB ") =~= bytes::ascii("UNSUB") + seq![SP]);
    assert(bytes::ascii("PUB ") =~= bytes::ascii("PUB") + seq![SP]);
    assert(bytes::ascii("MSG ") =~= bytes::ascii("MSG") + seq![SP]);
}

/// The verb of a frame.
spec fn verb(frame: FrameView) -> Seq<u8> {
    match frame {
        FrameView::Ping => bytes::ascii("PING"),
        FrameView::Pong => bytes::ascii("PONG"),
        FrameView::Ack => bytes::ascii("+OK"),
        FrameView::Error { .. } => bytes::ascii("-ERR"),
        FrameView::Info { .. } => bytes::ascii("INFO"),
        FrameView::Connect { .. } => bytes::ascii("CONNECT"),
        FrameView::Sub { .. } => bytes::ascii("SUB"),
        FrameView::Unsub { .. } => bytes::ascii("UNSUB"),
        FrameView::Pub { .. } => bytes::ascii("PUB"),
        FrameView::Msg { .. } => bytes::ascii("MSG"),
    }
}

/// An optional field as a list.
spec fn listed(field: Option<Seq<u8>>) -> Seq<Seq<u8>> {
    match field {
        Some(s) => seq![s],
        None => seq![],
    }
}

/// The fields behind the verb.
spec fn fields(frame: FrameView) -> Seq<Seq<u8>> {
    match frame {
        FrameView::Error { message } => seq![message],
        FrameView::Info { options } => seq![options],
        FrameView::Connect { options } => seq![options],
        FrameView::Sub { subject, queue_group, sid } => seq![subject] + listed(queue_group)
            + seq![sid],
        FrameView::Unsub { sid, max_msgs } => match max_msgs {
            Some(m) => seq![sid, grammar::decimal(m as nat)],
            None => seq![sid],
        },
        FrameView::Pub { subject, reply_to, payload } => seq![subject] + listed(reply_to)
            + seq![grammar::decimal(payload.len())],
        FrameView::Msg { subject, sid, reply_to, payload } => seq![subject, sid] + listed(reply_to)
            + seq![grammar::decimal(payload.len())],
        _ => seq![],
    }
}

/// The header line, without its terminator.
spec fn header(frame: FrameView) -> Seq<u8> {
    match frame {
        FrameView::Ping | FrameView::Pong | FrameView::Ack => verb(frame),
        _ => verb(frame) + (seq![SP] + spaced(fields(frame))),
    }
}

/// What follows the header line and its terminator.
spec fn behind_header(frame: FrameView) -> Seq<u8> {
    match frame {
        FrameView::Pub { payload, .. } => payload + grammar::crlf(),
        FrameView::Msg { payload, .. } => payload + grammar::crlf(),
        _ => Seq::empty(),
    }
}

/// The text that a frame starts with is its verb and what closes it.
proof fn lemma_head(frame: FrameView)
    ensures
        emit::pieces(frame)[0] == verb(frame) + (if frame is Ping || frame is Pong || frame is Ack {
            grammar::crlf()
        } else {
            seq![SP]
        }),
{
    lemma_heads();
}

/// Two to four words with spaces between them.
proof fn lemma_spaced(a: Seq<u8>, b: Seq<u8>, c: Seq<u8>, d: Seq<u8>)
    ensures
        spaced(seq![a]) == a,
        spaced(seq![a, b]) == a + (seq![SP] + b),
        spaced(seq![a, b, c]) == a + (seq![SP] + (b + (seq![SP] + c))),
        spaced(seq![a, b, c, d]) == a + (seq![SP] + (b + (seq![SP] + (c + (seq![SP] + d))))),
{
    reveal_with_fuel(spaced, 5);
    assert(seq![a, b].skip(1) =~= seq![b]);
    assert(seq![a, b, c].skip(1) =~= seq![b, c]);
    assert(seq![b, c].skip(1) =~= seq![c]);
    assert(seq![a, b, c, d].skip(1) =~= seq![b, c, d]);
    assert(seq![b, c, d].skip(1) =~= seq![c, d]);
    assert(seq![c, d].skip(1) =~= seq![d]);
}

/// Two parts more behind the first `k`.
proof fn lemma_joined_two(parts: Seq<Seq<u8>>, k: int)
    requires
        0 <= k,
        k + 2 <= parts.len(),
    ensures
        emit::joined(parts, k + 2) == emit::joined(parts, k) + (parts[k] + parts[k + 1]),
{
    reveal_with_fuel(emit::joined, 3);
    assert(emit::joined(parts, k + 2) =~= emit::joined(parts, k) + (parts[k] + parts[k + 1]));
}

/// A frame is its header line, the terminator, and the body.
proof fn lemma_encoded(frame: FrameView)
    ensures
        emit::encoded(frame) == header(frame) + grammar::crlf() + behind_header(frame),
{
    let p = emit::pieces(frame);
    let code = header(frame) + grammar::crlf() + behind_header(frame);
    match frame {
        FrameView::Sub { subject, queue_group, sid } => {
            lemma_encoded_sub(subject, queue_group, sid);
        },
        FrameView::Unsub { sid, max_msgs } => {
            lemma_encoded_unsub(sid, max_msgs);
        },
        FrameView::Pub { subject, reply_to, payload } => {
            lemma_encoded_pub(subject, reply_to, payload);
        },
        FrameView::Msg { subject, sid, reply_to, payload } => {
            lemma_encoded_msg(subject, sid, reply_to, payload);
        },
        FrameView::Ping | FrameView::Pong | FrameView::Ack => {
            lemma_head(frame);
            assert(emit::joined(p, 0) =~= Seq::<u8>::empty());
            assert(emit::joined(p, 1) =~= code);
        },
        FrameView::Error { .. } | FrameView::Info { .. } | FrameView::Connect { .. } => {
            lemma_head(frame);
            let f = fields(frame);
            assert(spaced(f) == f[0]);
            assert(emit::joined(p, 0) =~= Seq::<u8>::empty());
            assert(emit::joined(p, 1) =~= p[0]);
            lemma_joined_two(p, 1);
            assert(emit::joined(p, 3) =~= code);
        },
    }
}

#[verifier::rlimit(40)]
proof fn lemma_encoded_sub(subject: Seq<u8>, queue_group: Option<Seq<u8>>, sid: Seq<u8>)
    ensures
        ({
            let frame = FrameView::Sub { subject, queue_group, sid };
            emit::encoded(frame) == header(frame) + grammar::crlf() + behind_header(frame)
        }),
{
    let frame = FrameView::Sub { subject, queue_group, sid };
    let p = emit::pieces(frame);
    let f = fields(frame);
    let code = header(frame) + grammar::crlf() + behind_header(frame);
    lemma_head(frame);
    assert(emit::joined(p, 0) =~= Seq::<u8>::empty());
    assert(emit::joined(p, 1) =~= p[0]);
    lemma_joined_two(p, 1);
    lemma_joined_two(p, 3);
    match queue_group {
        Some(q) => {
            lemma_spaced(subject, q, sid, sid);
            assert(f =~= seq![subject, q, sid]);
            lemma_joined_two(p, 5);
            assert(emit::joined(p, 7) =~= code);
        },
        None => {
            lemma_spaced(subject, sid, sid, sid);
            assert(f =~= seq![subject, sid]);
            assert(emit::joined(p, 5) =~= code);
        },
    }
}

proof fn lemma_encoded_unsub(sid: Seq<u8>, max_msgs: Option<u64>)
    ensures
        ({
            let frame = FrameView::Unsub { sid, max_msgs };
            emit::encoded(frame) == header(frame) + grammar::crlf() + behind_header(frame)
        }),
{
    let frame = FrameView::Unsub { sid, max_msgs };
    let p = emit::pieces(frame);
    let code = header(frame) + grammar::crlf() + behind_header(frame);
    lemma_head(frame);
    assert(emit::joined(p, 0) =~= Seq::<u8>::empty());
    assert(emit::joined(p, 1) =~= p[0]);
    lemma_joined_two(p, 1);
    match max_msgs {
        Some(m) => {
            let d = grammar::decimal(m as nat);
            lemma_spaced(sid, d, d, d);
            lemma_joined_two(p, 3);
            assert(emit::joined(p, 5) =~= code);
        },
        None => {
            lemma_spaced(sid, sid, sid, sid);
            assert(emit::joined(p, 3) =~= code);
        },
    }
}

#[verifier::rlimit(40)]
proof fn lemma_encoded_pub(subject: Seq<u8>, reply_to: Option<Seq<u8>>, payload: Seq<u8>)
    ensures
        ({
            let frame = FrameView::Pub { subject, reply_to, payload };
            emit::encoded(frame) == header(frame) + grammar::crlf() + behind_header(frame)
        }),
{
    let frame = FrameView::Pub { subject, reply_to, payload };
    let p = emit::pieces(frame);
    let f = fields(frame);
    let d = grammar::decimal(payload.len());
    let code = header(frame) + grammar::crlf() + behind_header(frame);
    lemma_head(frame);
    assert(emit::joined(p, 0) =~= Seq::<u8>::empty());
    assert(emit::joined(p, 1) =~= p[0]);
    lemma_joined_two(p, 1);
    lemma_joined_two(p, 3);
    lemma_joined_two(p, 5);
    match reply_to {
        Some(r) => {
            lemma_spaced(subject, r, d, d);
            assert(f =~= seq![subject, r, d]);
            lemma_joined_two(p, 7);
            assert(emit::joined(p, 9) =~= code);
        },
        None => {
            lemma_spaced(subject, d, d, d);
            assert(f =~= seq![subject, d]);
            assert(emit::joined(p, 7) =~= code);
        },
    }
}

#[verifier::rlimit(40)]
proof fn lemma_encoded_msg(
    subject: Seq<u8>,
    sid: Seq<u8>,
    reply_to: Option<Seq<u8>>,
    payload: Seq<u8>,
)
    ensures
        ({
            let frame = FrameView::Msg { subject, sid, reply_to, payload };
            emit::encoded(frame) == header(frame) + grammar::crlf() + behind_header(frame)
        }),
{
    let frame = FrameView::Msg { subject, sid, reply_to, payload };
    let p = emit::pieces(frame);
    let f = fields(frame);
    let d = grammar::decimal(payload.len());
    let code = header(frame) + grammar::crlf() + behind_header(frame);
    lemma_head(frame);
    assert(emit::joined(p, 0) =~= Seq::<u8>::empty());
    assert(emit::joined(p, 1) =~= p[0]);
    lemma_joined_two(p, 1);
    lemma_joined_two(p, 3);
    lemma_joined_two(p, 5);
    lemma_joined_two(p, 7);
    match reply_to {
        Some(r) => {
            lemma_spaced(subject, sid, r, d);
            assert(f =~= seq![subject, sid, r, d]);
            lemma_joined_two(p, 9);
            assert(emit::joined(p, 11) =~= code);
        },
        None => {
            lemma_spaced(subject, sid, d, d);
            assert(f =~= seq![subject, sid, d]);
            assert(emit::joined(p, 9) =~= code);
        },
    }
}

/// The header line of a legal frame stands on one line.
proof fn lemma_header_on_one_line(frame: FrameView)
    requires
        legal(frame),
    ensures
        on_one_line(header(frame)),
        is_word(verb(frame)),
{
    lemma_verbs();
    let f = fields(frame);
    match frame {
        FrameView::Ping | FrameView::Pong | FrameView::Ack => {},
        FrameView::Error { .. } | FrameView::Info { .. } | FrameView::Connect { .. } => {
            lemma_one_line_joined(verb(frame), f[0]);
        },
        _ => {
            lemma_fields_are_words(frame);
            lemma_one_line_spaced(f);
            lemma_one_line_joined(verb(frame), spaced(f));
        },
    }
}

proof fn lemma_fields_are_words(frame: FrameView)
    requires
        legal(frame),
        frame is Sub || frame is Unsub || frame is Pub || frame is Msg,
    ensures
        all_words(fields(frame)),
{
    match frame {
        FrameView::Unsub { max_msgs, .. } => {
            if max_msgs is Some {
                lemma_decimal_word(max_msgs->0 as nat);
            }
        },
        FrameView::Pub { payload, .. } => {
            lemma_decimal_word(payload.len());
        },
        FrameView::Msg { payload, .. } => {
            lemma_decimal_word(payload.len());
        },
        _ => {},
    }
}

/// The parser finds the header line of a frame and takes it apart.
proof fn lemma_header_found(frame: FrameView, tail: Seq<u8>)
    requires
        legal(frame),
    ensures
        ({
            let buf = emit::encoded(frame) + tail;
            let line = header(frame);
            &&& buf == line + grammar::crlf() + (behind_header(frame) + tail)
            &&& grammar::parsed(buf) == grammar::frame_of(buf, line)
            &&& grammar::verb_of(line) == verb(frame)
            &&& grammar::rest_of(line) == spaced(fields(frame))
        }),
{
    lemma_encoded(frame);
    lemma_header_on_one_line(frame);
    let line = header(frame);
    let rest = behind_header(frame) + tail;
    let buf = emit::encoded(frame) + tail;
    assert(buf =~= line + grammar::crlf() + rest);
    lemma_first_line(line, rest);
    match frame {
        FrameView::Ping | FrameView::Pong | FrameView::Ack => {
            lemma_bare_verb(line);
            assert(grammar::rest_of(line) =~= spaced(fields(frame)));
        },
        _ => {
            lemma_verb(verb(frame), spaced(fields(frame)));
        },
    }
}

/// The fields behind the verb are read as they were written.
proof fn lemma_fields_found(frame: FrameView)
    requires
        legal(frame),
        frame is Sub || frame is Unsub || frame is Pub || frame is Msg,
    ensures
        grammar::words(spaced(fields(frame))) == fields(frame),
{
    lemma_fields_are_words(frame);
    lemma_words_spaced(fields(frame));
}

proof fn lemma_parse_pub(subject: Seq<u8>, reply_to: Option<Seq<u8>>, payload: Seq<u8>, tail: Seq<u8>)
    requires
        legal(FrameView::Pub { subject, reply_to, payload }),
        emit::encoded(FrameView::Pub { subject, reply_to, payload }).len() <= usize::MAX,
    ensures
        ({
            let frame = FrameView::Pub { subject, reply_to, payload };
            let code = emit::encoded(frame);
            grammar::pub_frame(code + tail, fields(frame), header(frame).len() as int + 2) == (
            OutcomeView::Frame { frame, consumed: code.len() as int })
        }),
{
    let frame = FrameView::Pub { subject, reply_to, payload };
    lemma_encoded(frame);
    lemma_decimal(payload.len());
    lemma_body(header(frame), payload, tail);
    assert(emit::encoded(frame) + tail =~= header(frame) + grammar::crlf() + (payload
        + grammar::crlf() + tail));
}

#[verifier::rlimit(40)]
proof fn lemma_parse_msg(
    subject: Seq<u8>,
    sid: Seq<u8>,
    reply_to: Option<Seq<u8>>,
    payload: Seq<u8>,
    tail: Seq<u8>,
)
    requires
        legal(FrameView::Msg { subject, sid, reply_to, payload }),
        emit::encoded(FrameView::Msg { subject, sid, reply_to, payload }).len() <= usize::MAX,
    ensures
        ({
            let frame = FrameView::Msg { subject, sid, reply_to, payload };
            let code = emit::encoded(frame);
            grammar::msg_frame(code + tail, fields(frame), header(frame).len() as int + 2) == (
            OutcomeView::Frame { frame, consumed: code.len() as int })
        }),
{
    let frame = FrameView::Msg { subject, sid, reply_to, payload };
    lemma_encoded(frame);
    lemma_decimal(payload.len());
    lemma_body(header(frame), payload, tail);
    assert(emit::encoded(frame) + tail =~= header(frame) + grammar::crlf() + (payload
        + grammar::crlf() + tail));
}

/// The verb decides how the rest of the line is read.
proof fn lemma_verb_decides(buf: Seq<u8>, line: Seq<u8>, frame: FrameView)
    requires
        grammar::verb_of(line) == verb(frame),
    ensures
        ({
            let rest = grammar::rest_of(line);
            let header = line.len() as int + 2;
            grammar::frame_of(buf, line) == (match frame {
                FrameView::Ping | FrameView::Pong | FrameView::Ack => grammar::bare_verb(
                    frame,
                    rest,
                    header,
                ),
                FrameView::Error { .. } => grammar::line_frame(
                    FrameView::Error { message: rest },
                    header,
                ),
                FrameView::Connect { .. } => grammar::options_line(
                    FrameView::Connect { options: rest },
                    rest,
                    header,
                ),
                FrameView::Info { .. } => grammar::options_line(
                    FrameView::Info { options: rest },
                    rest,
                    header,
                ),
                FrameView::Sub { .. } => grammar::sub_line(grammar::words(rest), header),
                FrameView::Unsub { .. } => grammar::unsub_line(grammar::words(rest), header),
                FrameView::Pub { .. } => grammar::pub_frame(buf, grammar::words(rest), header),
                FrameView::Msg { .. } => grammar::msg_frame(buf, grammar::words(rest), header),
            })
        }),
{
    lemma_verbs_differ();
}

/// Parsing gives back the frame that was emitted, and consumes exactly its
/// bytes, whatever follows them in the buffer. The lengths are those that a
/// buffer in memory can have.
#[verifier::rlimit(40)]
pub proof fn law_parse_undoes_emit(frame: FrameView, tail: Seq<u8>)
    requires
        legal(frame),
        emit::encoded(frame).len() <= usize::MAX,
    ensures
        grammar::parsed(emit::encoded(frame) + tail) == (OutcomeView::Frame {
            frame,
            consumed: emit::encoded(frame).len() as int,
        }),
{
    lemma_header_found(frame, tail);
    lemma_verb_decides(emit::encoded(frame) + tail, header(frame), frame);
    match frame {
        FrameView::Sub { .. } => {
            lemma_fields_found(frame);
            lemma_encoded(frame);
        },
        FrameView::Unsub { sid, max_msgs } => {
            lemma_fields_found(frame);
            lemma_encoded(frame);
            if max_msgs is Some {
                lemma_decimal(max_msgs->0 as nat);
            }
        },
        FrameView::Pub { subject, reply_to, payload } => {
            lemma_fields_found(frame);
            lemma_parse_pub(subject, reply_to, payload, tail);
        },
        FrameView::Msg { subject, sid, reply_to, payload } => {
            lemma_fields_found(frame);
            lemma_parse_msg(subject, sid, reply_to, payload, tail);
        },
        _ => {
            lemma_encoded(frame);
        },
    }
}

/// The body behind a header line is found whole.
proof fn lemma_body(line: Seq<u8>, payload: Seq<u8>, tail: Seq<u8>)
    ensures
        ({
            let buf = line + grammar::crlf() + (payload + grammar::crlf() + tail);
            let start = line.len() + 2;
            &&& buf.len() >= start + payload.len() + 2
            &&& grammar::crlf_at(buf, (start + payload.len()) as int)
            &&& buf.subrange(start as int, (start + payload.len()) as int) == payload
        }),
{
    let buf = line + grammar::crlf() + (payload + grammar::crlf() + tail);
    let start = line.len() + 2;
    assert(buf.subrange(start as int, (start + payload.len()) as int) =~= payload);
}

/// A frame that was emitted into a buffer is parsed from it.
pub proof fn law_emitted_frame_is_parsed(
    before: Seq<u8>,
    frame: FrameView,
    after: Seq<u8>,
    r: Result<usize, EmitError>,
)
    requires
        legal(frame),
        before.len() <= usize::MAX,
        emit::emits(before, frame, after, r),
        r is Ok,
    ensures
        grammar::parsed(after) == (OutcomeView::Frame { frame, consumed: r->Ok_0 as int }),
        grammar::parsed(after.take(r->Ok_0 as int)) == (OutcomeView::Frame {
            frame,
            consumed: r->Ok_0 as int,
        }),
{
    let code = emit::encoded(frame);
    law_parse_undoes_emit(frame, before.skip(code.len() as int));
    law_parse_undoes_emit(frame, Seq::empty());
    assert(after.take(code.len() as int) =~= code + Seq::<u8>::empty());
}

/// A buffer that is too short is told what the frame requires: a buffer of
/// that size, or a larger one, takes it.
pub proof fn law_needed_is_what_it_takes(
    before: Seq<u8>,
    frame: FrameView,
    after: Seq<u8>,
    r: Result<usize, EmitError>,
    larger: Seq<u8>,
)
    requires
        emit::emits(before, frame, after, r),
        r is Err,
        emit::encoded(frame).len() <= usize::MAX,
    ensures
        r->Err_0 matches EmitError::BufferTooSmall { needed, have } && {
            &&& needed == emit::encoded(frame).len()
            &&& needed > before.len()
            &&& forall|end: Seq<u8>, s: Result<usize, EmitError>|
                larger.len() >= needed && #[trigger] emit::emits(larger, frame, end, s) ==> s
                    == Ok::<usize, EmitError>(needed)
        },
{
}

/// A parsed frame takes at least its line terminator, and no more than the
/// buffer holds.
pub proof fn law_consumed_is_within(buf: Seq<u8>)
    ensures
        grammar::parsed(buf) matches OutcomeView::Frame { frame, consumed } ==> 2 <= consumed
            <= buf.len(),
{
    if grammar::line_end(buf) is Some {
        let end = choose|i: int| grammar::is_line_end(buf, i);
        assert(grammar::crlf_at(buf, end));
    }
}

/// More bytes never change an outcome: neither a frame that was found nor an
/// error.
pub proof fn law_outcome_is_stable(buf: Seq<u8>, more: Seq<u8>)
    requires
        grammar::parsed(buf) !is NeedMore,
    ensures
        grammar::parsed(buf + more) == grammar::parsed(buf),
{
    let longer = buf + more;
    let end = choose|i: int| grammar::is_line_end(buf, i);
    assert(grammar::is_line_end(buf, end));
    assert(grammar::is_line_end(longer, end)) by {
        assert(grammar::crlf_at(longer, end));
        assert forall|j: int| 0 <= j < end implies !grammar::crlf_at(longer, j) by {
            assert(!grammar::crlf_at(buf, j));
        }
    }
    grammar::lemma_line_end(buf, end);
    grammar::lemma_line_end(longer, end);
    let line = buf.take(end);
    assert(longer.take(end) =~= line);
    let w = grammar::words(grammar::rest_of(line));
    let header = line.len() as int + 2;
    if w.len() > 0 {
        if let Some(n) = grammar::number(w.last(), usize::MAX as int) {
            assert(grammar::is_decimal(w.last()));
            assert(w.last().take(w.last().len() as int) =~= w.last());
            grammar::lemma_decimal_grows(w.last(), w.last().len() as int);
            if header + n + 2 <= buf.len() {
                assert(longer.subrange(header, header + n) =~= buf.subrange(header, header + n));
                assert(grammar::crlf_at(longer, header + n) == grammar::crlf_at(buf, header + n));
            }
        }
    }
}

/// As long as the last byte of a legal frame has not come, the parser asks
/// for more.
pub proof fn law_prefix_needs_more(frame: FrameView, k: int)
    requires
        legal(frame),
        emit::encoded(frame).len() <= usize::MAX,
        0 <= k < emit::encoded(frame).len(),
    ensures
        grammar::parsed(emit::encoded(frame).take(k)) is NeedMore,
{
    let code = emit::encoded(frame);
    if grammar::parsed(code.take(k)) !is NeedMore {
        law_outcome_is_stable(code.take(k), code.skip(k));
        assert(code.take(k) + code.skip(k) =~= code + Seq::<u8>::empty());
        law_parse_undoes_emit(frame, Seq::empty());
        law_consumed_is_within(code.take(k));
    }
}

/// The length of a frame that carries one text.
pub proof fn lemma_encoded_len(text: Seq<u8>)
    ensures
        emit::encoded(FrameView::Error { message: text }).len() == text.len() + 7,
        emit::encoded(FrameView::Info { options: text }).len() == text.len() + 7,
        emit::encoded(FrameView::Pong).len() == 6,
{
    lemma_encoded(FrameView::Error { message: text });
    lemma_encoded(FrameView::Info { options: text });
    lemma_encoded(FrameView::Pong);
    reveal_strlit("-ERR");
    reveal_strlit("INFO");
    reveal_strlit("PONG");
}

/// A number below two to the sixty-fourth has at most twenty digits.
proof fn lemma_decimal_len(n: nat, digits: nat, bound: nat)
    requires
        n < bound,
        digits > 0,
        bound == vstd::arithmetic::power::pow(10, digits),
    ensures
        grammar::decimal(n).len() <= digits,
    decreases n,
{
    if n >= 10 {
        vstd::arithmetic::power::lemma_pow0(10);
        vstd::arithmetic::power::lemma_pow1(10);
        if digits == 1 {
            assert(false);
        }
        let less = (digits - 1) as nat;
        reveal_with_fuel(vstd::arithmetic::power::pow, 2);
        let smaller = vstd::arithmetic::power::pow(10, less);
        assert(bound == 10 * smaller);
        assert(n / 10 < smaller);
        lemma_decimal_len(n / 10, less, smaller as nat);
    }
}

/// A published message is its payload and a short header.
pub proof fn lemma_pub_len(subject: Seq<u8>, payload: Seq<u8>)
    requires
        payload.len() <= usize::MAX,
    ensures
        emit::encoded(FrameView::Pub { subject, reply_to: None, payload }).len() <= subject.len()
            + payload.len() + 40,
{
    let frame = FrameView::Pub { subject, reply_to: None, payload };
    lemma_encoded(frame);
    let d = grammar::decimal(payload.len());
    lemma_spaced(subject, d, d, d);
    assert(fields(frame) =~= seq![subject, d]);
    reveal_strlit("PUB");
    assert(vstd::arithmetic::power::pow(10, 20) == 100_000_000_000_000_000_000) by {
        reveal_with_fuel(vstd::arithmetic::power::pow, 21);
    }
    lemma_decimal_len(payload.len(), 20, 100_000_000_000_000_000_000);
}

/// How a delivered message stands on the wire: a line that begins with `MSG `,
/// then the payload, then the terminator.
pub proof fn lemma_msg_shape(subject: Seq<u8>, sid: Seq<u8>, payload: Seq<u8>)
    requires
        is_word(subject),
        is_word(sid),
    ensures
        ({
            let code = emit::encoded(FrameView::Msg { subject, sid, reply_to: None, payload });
            let end = grammar::line_end(code)->0;
            &&& grammar::line_end(code) is Some
            &&& 0 <= end
            &&& bytes::ascii("MSG ").is_prefix_of(code.take(end))
            &&& code.len() == end + 2 + payload.len() + 2
            &&& code.subrange(end + 2, end + 2 + payload.len()) == payload
        }),
{
    let frame = FrameView::Msg { subject, sid, reply_to: None, payload };
    let code = emit::encoded(frame);
    lemma_encoded(frame);
    lemma_header_on_one_line(frame);
    lemma_first_line(header(frame), behind_header(frame));
    lemma_head(frame);
    let line = header(frame);
    assert(line =~= bytes::ascii("MSG ") + spaced(fields(frame)));
    assert(bytes::ascii("MSG ") =~= line.take(bytes::ascii("MSG ").len() as int));
    assert(code.subrange(line.len() as int + 2, line.len() as int + 2 + payload.len())
        =~= payload);
}

/// No word is longer than the line.
proof fn lemma_words_len(s: Seq<u8>)
    ensures
        forall|i: int|
            0 <= i < grammar::words(s).len() ==> (#[trigger] grammar::words(s)[i]).len() <= s.len(),
    decreases s.len(),
{
    grammar::lemma_blanks(s);
    let t = grammar::trimmed(s);
    if t.len() > 0 {
        grammar::lemma_word_len(t);
        let n = grammar::word_len(t) as int;
        assert(t[0] == s[grammar::blanks(s) as int]);
        lemma_words_len(t.skip(n));
        let w = grammar::words(s);
        let rest = grammar::words(t.skip(n));
        assert forall|i: int| 0 <= i < w.len() implies (#[trigger] w[i]).len() <= s.len() by {
            if i > 0 {
                assert(w[i] == rest[i - 1]);
            }
        }
    }
}

/// The subject of a parsed frame is no longer than the buffer.
pub proof fn lemma_subject_is_within(buf: Seq<u8>)
    ensures
        grammar::parsed(buf) matches OutcomeView::Frame { frame, consumed } ==> {
            &&& frame matches FrameView::Sub { subject, .. } ==> subject.len() <= buf.len()
            &&& frame matches FrameView::Pub { subject, .. } ==> subject.len() <= buf.len()
        },
{
    if grammar::line_end(buf) is Some {
        let end = choose|i: int| grammar::is_line_end(buf, i);
        assert(grammar::is_line_end(buf, end));
        let line = buf.take(end);
        grammar::lemma_word_len(line);
        lemma_words_len(grammar::rest_of(line));
    }
}

proof fn lemma_one_line_part(s: Seq<u8>, i: int, j: int)
    requires
        on_one_line(s),
        0 <= i <= j <= s.len(),
    ensures
        on_one_line(s.subrange(i, j)),
{
    let t = s.subrange(i, j);
    assert forall|k: int| !grammar::crlf_at(t, k) by {
        if grammar::crlf_at(t, k) {
            assert(grammar::crlf_at(s, k + i));
        }
    }
}

proof fn lemma_words_are_words(s: Seq<u8>)
    requires
        on_one_line(s),
    ensures
        all_words(grammar::words(s)),
    decreases s.len(),
{
    grammar::lemma_blanks(s);
    let b = grammar::blanks(s) as int;
    let t = grammar::trimmed(s);
    assert(t =~= s.subrange(b, s.len() as int));
    lemma_one_line_part(s, b, s.len() as int);
    if t.len() > 0 {
        grammar::lemma_word_len(t);
        let n = grammar::word_len(t) as int;
        assert(t[0] == s[b]);
        let w = t.take(n);
        assert(w =~= t.subrange(0, n));
        lemma_one_line_part(t, 0, n);
        assert forall|i: int| 0 <= i < w.len() implies !grammar::is_blank(#[trigger] w[i]) by {
            assert(w[i] == t[i]);
        }
        assert(is_word(w));
        assert(t.skip(n) =~= t.subrange(n, t.len() as int));
        lemma_one_line_part(t, n, t.len() as int);
        lemma_words_are_words(t.skip(n));
    }
}

/// Every frame that the parser finds is legal, so emitting it and parsing
/// again gives the same frame.
pub proof fn law_parsed_frame_is_legal(buf: Seq<u8>)
    ensures
        grammar::parsed(buf) matches OutcomeView::Frame { frame, consumed } ==> legal(frame),
{
    if grammar::line_end(buf) is Some {
        let end = choose|i: int| grammar::is_line_end(buf, i);
        assert(grammar::is_line_end(buf, end));
        let line = buf.take(end);
        assert forall|i: int| !grammar::crlf_at(line, i) by {
            if grammar::crlf_at(line, i) {
                assert(grammar::crlf_at(buf, i));
            }
        }
        let rest = grammar::rest_of(line);
        grammar::lemma_word_len(line);
        let n = grammar::word_len(line) as int;
        if n < line.len() {
            assert(rest =~= line.subrange(n + 1, line.len() as int));
            lemma_one_line_part(line, n + 1, line.len() as int);
        }
        assert(on_one_line(rest));
        lemma_words_are_words(rest);
    }
}

/// A field with the space behind it, or nothing.
pub open spec fn optional_part(field: Option<Seq<u8>>) -> Seq<u8> {
    match field {
        Some(s) => s + seq![32u8],
        None => Seq::empty(),
    }
}

/// A payload behind its length: the number, the end of the line, the payload
/// itself, whatever bytes it holds, and the end of the frame.
pub open spec fn counted(payload: Seq<u8>) -> Seq<u8> {
    grammar::decimal(payload.len()) + seq![13u8, 10u8] + payload + seq![13u8, 10u8]
}

proof fn lemma_format_sub(subject: Seq<u8>, queue_group: Option<Seq<u8>>, sid: Seq<u8>)
    ensures
        emit::encoded(FrameView::Sub { subject, queue_group, sid }) == bytes::ascii("SUB ")
            + subject + seq![32u8] + optional_part(queue_group) + sid + seq![13u8, 10u8],
{
    let frame = FrameView::Sub { subject, queue_group, sid };
    let e = emit::encoded(frame);
    lemma_encoded(frame);
    lemma_heads();
    match queue_group {
        Some(g) => {
            lemma_spaced(subject, g, sid, sid);
            assert(fields(frame) =~= seq![subject, g, sid]);
        },
        None => {
            lemma_spaced(subject, sid, sid, sid);
            assert(fields(frame) =~= seq![subject, sid]);
        },
    }
    assert(e =~= bytes::ascii("SUB ") + subject + seq![32u8] + optional_part(queue_group) + sid
        + seq![13u8, 10u8]);
}

proof fn lemma_format_unsub(sid: Seq<u8>, max_msgs: Option<u64>)
    ensures
        emit::encoded(FrameView::Unsub { sid, max_msgs }) == bytes::ascii("UNSUB ") + sid + (
        match max_msgs {
            Some(m) => seq![32u8] + grammar::decimal(m as nat),
            None => Seq::empty(),
        }) + seq![13u8, 10u8],
{
    let frame = FrameView::Unsub { sid, max_msgs };
    let e = emit::encoded(frame);
    lemma_encoded(frame);
    lemma_heads();
    match max_msgs {
        Some(m) => {
            let d = grammar::decimal(m as nat);
            lemma_spaced(sid, d, d, d);
            assert(e =~= bytes::ascii("UNSUB ") + sid + (seq![32u8] + d) + seq![13u8, 10u8]);
        },
        None => {
            lemma_spaced(sid, sid, sid, sid);
            assert(e =~= bytes::ascii("UNSUB ") + sid + Seq::<u8>::empty() + seq![13u8, 10u8]);
        },
    }
}

proof fn lemma_format_pub(subject: Seq<u8>, reply_to: Option<Seq<u8>>, payload: Seq<u8>)
    ensures
        emit::encoded(FrameView::Pub { subject, reply_to, payload }) == bytes::ascii("PUB ")
            + subject + seq![32u8] + optional_part(reply_to) + counted(payload),
{
    let frame = FrameView::Pub { subject, reply_to, payload };
    let e = emit::encoded(frame);
    let d = grammar::decimal(payload.len());
    lemma_encoded(frame);
    lemma_heads();
    match reply_to {
        Some(t) => {
            lemma_spaced(subject, t, d, d);
            assert(fields(frame) =~= seq![subject, t, d]);
        },
        None => {
            lemma_spaced(subject, d, d, d);
            assert(fields(frame) =~= seq![subject, d]);
        },
    }
    assert(e =~= bytes::ascii("PUB ") + subject + seq![32u8] + optional_part(reply_to) + counted(
        payload,
    ));
}

proof fn lemma_format_msg(
    subject: Seq<u8>,
    sid: Seq<u8>,
    reply_to: Option<Seq<u8>>,
    payload: Seq<u8>,
)
    ensures
        emit::encoded(FrameView::Msg { subject, sid, reply_to, payload }) == bytes::ascii("MSG ")
            + subject + seq![32u8] + sid + seq![32u8] + optional_part(reply_to) + counted(payload),
{
    let frame = FrameView::Msg { subject, sid, reply_to, payload };
    let e = emit::encoded(frame);
    let d = grammar::decimal(payload.len());
    lemma_encoded(frame);
    lemma_heads();
    match reply_to {
        Some(t) => {
            lemma_spaced(subject, sid, t, d);
            assert(fields(frame) =~= seq![subject, sid, t, d]);
        },
        None => {
            lemma_spaced(subject, sid, d, d);
            assert(fields(frame) =~= seq![subject, sid, d]);
        },
    }
    assert(e =~= bytes::ascii("MSG ") + subject + seq![32u8] + sid + seq![32u8] + optional_part(
        reply_to,
    ) + counted(payload));
}

proof fn lemma_format_line(frame: FrameView)
    requires
        frame is Error || frame is Info || frame is Connect,
    ensures
        emit::encoded(frame) == (match frame {
            FrameView::Error { message } => bytes::ascii("-ERR ") + message,
            FrameView::Info { options } => bytes::ascii("INFO ") + options,
            FrameView::Connect { options } => bytes::ascii("CONNECT ") + options,
            _ => Seq::empty(),
        }) + seq![13u8, 10u8],
{
    let f = fields(frame)[0];
    lemma_encoded(frame);
    lemma_heads();
    lemma_spaced(f, f, f, f);
    assert(emit::encoded(frame) =~= verb(frame) + seq![32u8] + f + seq![13u8, 10u8]);
}

/// What each frame looks like on the wire, byte for byte.
pub proof fn law_wire_format(frame: FrameView)
    ensures
        emit::encoded(frame) == (match frame {
            FrameView::Ping => bytes::ascii("PING\r\n"),
            FrameView::Pong => bytes::ascii("PONG\r\n"),
            FrameView::Ack => bytes::ascii("+OK\r\n"),
            FrameView::Error { message } => bytes::ascii("-ERR ") + message + seq![13u8, 10u8],
            FrameView::Info { options } => bytes::ascii("INFO ") + options + seq![13u8, 10u8],
            FrameView::Connect { options } => bytes::ascii("CONNECT ") + options + seq![
                13u8,
                10u8,
            ],
            FrameView::Sub { subject, queue_group, sid } => bytes::ascii("SUB ") + subject + seq![
                32u8,
            ] + optional_part(queue_group) + sid + seq![13u8, 10u8],
            FrameView::Unsub { sid, max_msgs } => bytes::ascii("UNSUB ") + sid + (match max_msgs {
                Some(m) => seq![32u8] + grammar::decimal(m as nat),
                None => Seq::empty(),
            }) + seq![13u8, 10u8],
            FrameView::Pub { subject, reply_to, payload } => bytes::ascii("PUB ") + subject + seq![
                32u8,
            ] + optional_part(reply_to) + counted(payload),
            FrameView::Msg { subject, sid, reply_to, payload } => bytes::ascii("MSG ") + subject
                + seq![32u8] + sid + seq![32u8] + optional_part(reply_to) + counted(payload),
        }),
{
    match frame {
        FrameView::Sub { subject, queue_group, sid } => lemma_format_sub(
            subject,
            queue_group,
            sid,
        ),
        FrameView::Unsub { sid, max_msgs } => lemma_format_unsub(sid, max_msgs),
        FrameView::Pub { subject, reply_to, payload } => lemma_format_pub(
            subject,
            reply_to,
            payload,
        ),
        FrameView::Msg { subject, sid, reply_to, payload } => lemma_format_msg(
            subject,
            sid,
            reply_to,
            payload,
        ),
        FrameView::Error { .. } | FrameView::Info { .. } | FrameView::Connect { .. } => {
            lemma_format_line(frame);
        },
        _ => {
            assert(emit::joined(emit::pieces(frame), 0) =~= Seq::<u8>::empty());
            assert(emit::encoded(frame) =~= emit::pieces(frame)[0]);
        },
    }
}

/// The number that a field of digits denotes, if it is one and is at most
/// `max`.
pub open spec fn denotes(field: Seq<u8>, max: int) -> Option<int> {
    if field.len() > 0 && (forall|i: int| 0 <= i < field.len() ==> 48 <= #[trigger] field[i] <= 57)
        && grammar::decimal_value(field) <= max {
        Some(grammar::decimal_value(field))
    } else {
        None
    }
}

/// What a header with `used` bytes and these bytes behind it come to, where
/// the header announces a payload by the field `count`.
pub open spec fn with_payload(
    used: int,
    count: Seq<u8>,
    tail: Seq<u8>,
    frame: spec_fn(Seq<u8>) -> FrameView,
) -> OutcomeView {
    match denotes(count, usize::MAX as int) {
        None => OutcomeView::Error(ParseError::PayloadLengthInvalid),
        Some(n) => if used + n + 2 > usize::MAX {
            OutcomeView::Error(ParseError::PayloadLengthInvalid)
        } else if tail.len() < n + 2 {
            OutcomeView::NeedMore
        } else if tail[n] != 13 || tail[n + 1] != 10 {
            OutcomeView::Error(ParseError::MissingTrailingCrlf)
        } else {
            OutcomeView::Frame { frame: frame(tail.take(n)), consumed: used + n + 2 }
        },
    }
}

/// A verb followed by a space or a tab and the rest of a line: what the parser
/// makes of it, whatever the rest holds and whatever follows the line. The
/// arguments of `SUB`, `UNSUB`, `PUB` and `MSG` are the words of the rest.
pub proof fn law_parse_goes_by_the_verb(verb: Seq<u8>, blank: u8, rest: Seq<u8>, tail: Seq<u8>)
    requires
        forall|i: int| 0 <= i < verb.len() ==> #[trigger] verb[i] != 32 && verb[i] != 9,
        blank == 32 || blank == 9,
        on_one_line(verb + seq![blank] + rest),
    ensures
        ({
            let line = verb + seq![blank] + rest;
            let used = line.len() as int + 2;
            let w = grammar::words(rest);
            let malformed = OutcomeView::Error(ParseError::BadHeader);
            let outcome = grammar::parsed(line + seq![13u8, 10u8] + tail);
            &&& verb == bytes::ascii("PING") ==> outcome == if rest.len() == 0 {
                OutcomeView::Frame { frame: FrameView::Ping, consumed: used }
            } else {
                malformed
            }
            &&& verb == bytes::ascii("PONG") ==> outcome == if rest.len() == 0 {
                OutcomeView::Frame { frame: FrameView::Pong, consumed: used }
            } else {
                malformed
            }
            &&& verb == bytes::ascii("+OK") ==> outcome == if rest.len() == 0 {
                OutcomeView::Frame { frame: FrameView::Ack, consumed: used }
            } else {
                malformed
            }
            &&& verb == bytes::ascii("-ERR") ==> outcome == (OutcomeView::Frame {
                frame: FrameView::Error { message: rest },
                consumed: used,
            })
            &&& verb == bytes::ascii("CONNECT") ==> outcome == if rest.len() == 0 {
                malformed
            } else {
                OutcomeView::Frame { frame: FrameView::Connect { options: rest }, consumed: used }
            }
            &&& verb == bytes::ascii("INFO") ==> outcome == if rest.len() == 0 {
                malformed
            } else {
                OutcomeView::Frame { frame: FrameView::Info { options: rest }, consumed: used }
            }
            &&& verb == bytes::ascii("SUB") ==> outcome == if w.len() == 2 {
                OutcomeView::Frame {
                    frame: FrameView::Sub { subject: w[0], queue_group: None, sid: w[1] },
                    consumed: used,
                }
            } else if w.len() == 3 {
                OutcomeView::Frame {
                    frame: FrameView::Sub { subject: w[0], queue_group: Some(w[1]), sid: w[2] },
                    consumed: used,
                }
            } else {
                malformed
            }
            &&& verb == bytes::ascii("UNSUB") ==> outcome == if w.len() == 0 {
                malformed
            } else if w.len() == 1 {
                OutcomeView::Frame {
                    frame: FrameView::Unsub { sid: w[0], max_msgs: None },
                    consumed: used,
                }
            } else if denotes(w[1], u64::MAX as int) is None {
                OutcomeView::Error(ParseError::MaxMsgsInvalid)
            } else if w.len() == 2 {
                OutcomeView::Frame {
                    frame: FrameView::Unsub {
                        sid: w[0],
                        max_msgs: Some(denotes(w[1], u64::MAX as int)->0 as u64),
                    },
                    consumed: used,
                }
            } else {
                malformed
            }
            &&& verb == bytes::ascii("PUB") ==> outcome == if w.len() == 2 {
                with_payload(
                    used,
                    w[1],
                    tail,
                    |payload: Seq<u8>|
                        FrameView::Pub { subject: w[0], reply_to: None, payload },
                )
            } else if w.len() == 3 {
                with_payload(
                    used,
                    w[2],
                    tail,
                    |payload: Seq<u8>|
                        FrameView::Pub { subject: w[0], reply_to: Some(w[1]), payload },
                )
            } else {
                malformed
            }
            &&& verb == bytes::ascii("MSG") ==> outcome == if w.len() == 3 {
                with_payload(
                    used,
                    w[2],
                    tail,
                    |payload: Seq<u8>|
                        FrameView::Msg { subject: w[0], sid: w[1], reply_to: None, payload },
                )
            } else if w.len() == 4 {
                with_payload(
                    used,
                    w[3],
                    tail,
                    |payload: Seq<u8>|
                        FrameView::Msg { subject: w[0], sid: w[1], reply_to: Some(w[2]), payload },
                )
            } else {
                malformed
            }
            &&& !is_verb(verb) ==> outcome == OutcomeView::Error(ParseError::UnknownVerb)
        }),
{
    let line = verb + seq![blank] + rest;
    let buf = line + seq![13u8, 10u8] + tail;
    let w = grammar::words(rest);
    lemma_first_line(line, tail);
    assert(buf =~= line + grammar::crlf() + tail);
    assert forall|i: int| 0 <= i < verb.len() implies !grammar::is_blank(#[trigger] line[i]) by {
        assert(line[i] == verb[i]);
    }
    grammar::lemma_word_len_is(line, verb.len() as int);
    assert(line.take(verb.len() as int) =~= verb);
    assert(line.skip(verb.len() as int + 1) =~= rest);
    lemma_verbs_differ();
    if verb == bytes::ascii("PUB") {
        if w.len() == 2 {
            lemma_with_payload(
                line,
                w[1],
                tail,
                |payload: Seq<u8>| FrameView::Pub { subject: w[0], reply_to: None, payload },
            );
        } else if w.len() == 3 {
            lemma_with_payload(
                line,
                w[2],
                tail,
                |payload: Seq<u8>| FrameView::Pub { subject: w[0], reply_to: Some(w[1]), payload },
            );
        }
    } else if verb == bytes::ascii("MSG") {
        if w.len() == 3 {
            lemma_with_payload(
                line,
                w[2],
                tail,
                |payload: Seq<u8>|
                    FrameView::Msg { subject: w[0], sid: w[1], reply_to: None, payload },
            );
        } else if w.len() == 4 {
            lemma_with_payload(
                line,
                w[3],
                tail,
                |payload: Seq<u8>|
                    FrameView::Msg { subject: w[0], sid: w[1], reply_to: Some(w[2]), payload },
            );
        }
    } else if verb == bytes::ascii("UNSUB") {
        if w.len() >= 2 {
            lemma_denotes(w[1], u64::MAX as int);
        }
    }
}

/// A verb of the protocol.
pub open spec fn is_verb(verb: Seq<u8>) -> bool {
    ||| verb == bytes::ascii("PING")
    ||| verb == bytes::ascii("PONG")
    ||| verb == bytes::ascii("+OK")
    ||| verb == bytes::ascii("-ERR")
    ||| verb == bytes::ascii("CONNECT")
    ||| verb == bytes::ascii("INFO")
    ||| verb == bytes::ascii("SUB")
    ||| verb == bytes::ascii("UNSUB")
    ||| verb == bytes::ascii("PUB")
    ||| verb == bytes::ascii("MSG")
}

proof fn lemma_denotes(field: Seq<u8>, max: int)
    ensures
        grammar::number(field, max) == denotes(field, max),
{
    if grammar::is_decimal(field) {
        assert forall|i: int| 0 <= i < field.len() implies 48 <= #[trigger] field[i] <= 57 by {
            assert(grammar::is_digit(field[i]));
        }
    }
}

proof fn lemma_with_payload(
    line: Seq<u8>,
    count: Seq<u8>,
    tail: Seq<u8>,
    frame: spec_fn(Seq<u8>) -> FrameView,
)
    ensures
        grammar::body(line + seq![13u8, 10u8] + tail, line.len() as int + 2, count, frame)
            == with_payload(line.len() as int + 2, count, tail, frame),
{
    let buf = line + seq![13u8, 10u8] + tail;
    let used = line.len() as int + 2;
    lemma_denotes(count, usize::MAX as int);
    if let Some(n) = denotes(count, usize::MAX as int) {
        assert(count.take(count.len() as int) =~= count);
        grammar::lemma_decimal_grows(count, count.len() as int);
        assert(buf.len() == used + tail.len());
        if n + 2 <= tail.len() {
            assert(buf[used + n] == tail[n]);
            assert(buf[used + n + 1] == tail[n + 1]);
            assert(buf.subrange(used, used + n) =~= tail.take(n));
        }
    }
}

/// A verb alone on its line: what the parser makes of it.
pub proof fn law_parse_of_a_bare_verb(verb: Seq<u8>, tail: Seq<u8>)
    requires
        forall|i: int| 0 <= i < verb.len() ==> #[trigger] verb[i] != 32 && verb[i] != 9,
        on_one_line(verb),
    ensures
        ({
            let used = verb.len() as int + 2;
            let outcome = grammar::parsed(verb + seq![13u8, 10u8] + tail);
            if verb == bytes::ascii("PING") {
                outcome == (OutcomeView::Frame { frame: FrameView::Ping, consumed: used })
            } else if verb == bytes::ascii("PONG") {
                outcome == (OutcomeView::Frame { frame: FrameView::Pong, consumed: used })
            } else if verb == bytes::ascii("+OK") {
                outcome == (OutcomeView::Frame { frame: FrameView::Ack, consumed: used })
            } else if verb == bytes::ascii("-ERR") {
                outcome == (OutcomeView::Frame {
                    frame: FrameView::Error { message: Seq::empty() },
                    consumed: used,
                })
            } else if is_verb(verb) {
                outcome == OutcomeView::Error(ParseError::BadHeader)
            } else {
                outcome == OutcomeView::Error(ParseError::UnknownVerb)
            }
        }),
{
    lemma_first_line(verb, tail);
    assert(verb + seq![13u8, 10u8] + tail =~= verb + grammar::crlf() + tail);
    grammar::lemma_word_len_is(verb, verb.len() as int);
    assert(verb.take(verb.len() as int) =~= verb);
    lemma_verbs_differ();
    assert(grammar::words(Seq::empty()) =~= Seq::<Seq<u8>>::empty());
}

/// Without a complete line the parser asks for more.
pub proof fn law_no_line_needs_more(buf: Seq<u8>)
    requires
        forall|i: int| 0 <= i < buf.len() - 1 ==> !(#[trigger] buf[i] == 13 && buf[i + 1] == 10),
    ensures
        grammar::parsed(buf) is NeedMore,
{
    if exists|i: int| grammar::is_line_end(buf, i) {
        let i = choose|i: int| grammar::is_line_end(buf, i);
        assert(buf[i] == 13 && buf[i + 1] == 10);
    }
}

/// Bytes that separate words.
pub open spec fn all_blank(s: Seq<u8>) -> bool {
    forall|i: int| 0 <= i < s.len() ==> #[trigger] s[i] == 32 || s[i] == 9
}

/// At least one byte, and no space or tab.
pub open spec fn is_unbroken(s: Seq<u8>) -> bool {
    s.len() > 0 && forall|i: int| 0 <= i < s.len() ==> #[trigger] s[i] != 32 && s[i] != 9
}

/// Words behind blanks: before each of them stand those of `gaps` in the same
/// place.
pub open spec fn laid_out(gaps: Seq<Seq<u8>>, ws: Seq<Seq<u8>>) -> Seq<u8>
    decreases ws.len(),
{
    if ws.len() == 0 {
        Seq::empty()
    } else {
        gaps[0] + (ws[0] + laid_out(gaps.skip(1), ws.skip(1)))
    }
}

/// Words are what blanks separate, however many spaces and tabs stand before,
/// between and behind them.
pub proof fn law_blanks_separate_words(gaps: Seq<Seq<u8>>, ws: Seq<Seq<u8>>, end: Seq<u8>)
    requires
        gaps.len() == ws.len(),
        forall|i: int| 0 <= i < gaps.len() ==> all_blank(#[trigger] gaps[i]),
        forall|i: int| 1 <= i < gaps.len() ==> (#[trigger] gaps[i]).len() > 0,
        forall|i: int| 0 <= i < ws.len() ==> is_unbroken(#[trigger] ws[i]),
        all_blank(end),
    ensures
        grammar::words(laid_out(gaps, ws) + end) == ws,
    decreases ws.len(),
{
    if ws.len() == 0 {
        assert(laid_out(gaps, ws) + end =~= end);
        assert forall|i: int| 0 <= i < end.len() implies grammar::is_blank(#[trigger] end[i]) by {
            assert(end[i] == 32 || end[i] == 9);
        }
        grammar::lemma_blanks_are(end, end.len() as int);
        assert(grammar::words(end) =~= ws);
    } else {
        let more = laid_out(gaps.skip(1), ws.skip(1)) + end;
        let s = laid_out(gaps, ws) + end;
        assert(s =~= gaps[0] + (ws[0] + more));
        assert forall|i: int| 0 <= i < gaps.skip(1).len() implies all_blank(
            #[trigger] gaps.skip(1)[i],
        ) by {
            assert(gaps.skip(1)[i] == gaps[i + 1]);
        }
        assert forall|i: int| 1 <= i < gaps.skip(1).len() implies (#[trigger] gaps.skip(
            1,
        )[i]).len() > 0 by {
            assert(gaps.skip(1)[i] == gaps[i + 1]);
        }
        assert forall|i: int| 0 <= i < ws.skip(1).len() implies is_unbroken(
            #[trigger] ws.skip(1)[i],
        ) by {
            assert(ws.skip(1)[i] == ws[i + 1]);
        }
        law_blanks_separate_words(gaps.skip(1), ws.skip(1), end);
        assert(is_unbroken(ws[0]));
        assert forall|i: int| 0 <= i < ws[0].len() implies !grammar::is_blank(
            #[trigger] ws[0][i],
        ) by {
            assert(ws[0][i] != 32 && ws[0][i] != 9);
        }
        if more.len() > 0 {
            if ws.len() > 1 {
                assert(gaps.skip(1)[0] == gaps[1]);
                assert(all_blank(gaps[1]));
                assert(more[0] == gaps[1][0]);
            } else {
                assert(more =~= end);
                assert(end[0] == 32 || end[0] == 9);
            }
            assert(grammar::is_blank(more[0]));
        }
        lemma_words_first(ws[0], more);
        lemma_words_skip_blanks(gaps[0], ws[0] + more);
        assert(seq![ws[0]] + ws.skip(1) =~= ws);
    }
}

proof fn lemma_words_skip_blanks(gap: Seq<u8>, s: Seq<u8>)
    requires
        all_blank(gap),
        s.len() > 0,
        !grammar::is_blank(s[0]),
    ensures
        grammar::words(gap + s) == grammar::words(s),
{
    let t = gap + s;
    assert forall|i: int| 0 <= i < gap.len() implies grammar::is_blank(#[trigger] t[i]) by {
        assert(gap[i] == 32 || gap[i] == 9);
    }
    assert(t[gap.len() as int] == s[0]);
    grammar::lemma_blanks_are(t, gap.len() as int);
    grammar::lemma_blanks_are(s, 0);
    assert(grammar::trimmed(t) =~= s);
    assert(grammar::trimmed(s) =~= s);
}

/// How numbers are written: one digit for those below ten, else the digits of
/// the tens and behind them the last one.
pub proof fn law_decimals_are_written_in_tens(tens: nat, last: nat)
    requires
        last < 10,
    ensures
        grammar::decimal(last) == seq![(48 + last) as u8],
        tens > 0 ==> grammar::decimal(10 * tens + last) == grammar::decimal(tens) + seq![
            (48 + last) as u8,
        ],
{
    if tens > 0 {
        assert((10 * tens + last) / 10 == tens);
        assert((10 * tens + last) % 10 == last);
        assert(grammar::decimal(10 * tens + last) =~= grammar::decimal(tens) + seq![
            (48 + last) as u8,
        ]);
    }
}

/// How digits are read: none denote zero, and one more at the end counts for
/// itself, all before it tenfold.
pub proof fn law_digits_are_read_in_tens(s: Seq<u8>, last: u8)
    ensures
        grammar::decimal_value(Seq::empty()) == 0,
        grammar::decimal_value(s.push(last)) == 10 * grammar::decimal_value(s) + (last - 48),
{
    assert(s.push(last).drop_last() =~= s);
}

/// What emitting does to a buffer: where the frame fits, its bytes stand at the
/// head, their number is returned, and what is behind them is untouched; where
/// it does not, the error tells how long the frame and the buffer are.
pub proof fn law_emit_is_exact(
    before: Seq<u8>,
    frame: FrameView,
    after: Seq<u8>,
    r: Result<usize, EmitError>,
)
    requires
        emit::emits(before, frame, after, r),
        before.len() <= usize::MAX,
        emit::encoded(frame).len() <= usize::MAX,
    ensures
        ({
            let code = emit::encoded(frame);
            if code.len() <= before.len() {
                r == Ok::<usize, EmitError>(code.len() as usize) && after == code + before.skip(
                    code.len() as int,
                )
            } else {
                r == Err::<usize, EmitError>(
                    EmitError::BufferTooSmall {
                        needed: code.len() as usize,
                        have: before.len() as usize,
                    },
                )
            }
        }),
{
}

/// Where the parts of a delivery stand, whatever follows it.
pub proof fn lemma_delivery_shape(
    subject: Seq<u8>,
    sid: Seq<u8>,
    reply_to: Option<Seq<u8>>,
    payload: Seq<u8>,
    tail: Seq<u8>,
) -> (end: int)
    requires
        is_word(subject),
        is_word(sid),
        is_optional_word(reply_to),
    ensures
        ({
            let code = emit::encoded(FrameView::Msg { subject, sid, reply_to, payload });
            let buf = code + tail;
            &&& grammar::line_end(buf) == Some(end)
            &&& 0 <= end
            &&& bytes::ascii("MSG ").is_prefix_of(buf.take(end))
            &&& code.len() == end + 2 + payload.len() + 2
            &&& buf.subrange(end + 2, end + 2 + payload.len()) == payload
            &&& buf.skip(code.len() as int) == tail
        }),
{
    let frame = FrameView::Msg { subject, sid, reply_to, payload };
    let code = emit::encoded(frame);
    let buf = code + tail;
    let line = header(frame);
    lemma_encoded(frame);
    lemma_header_on_one_line(frame);
    lemma_first_line(line, behind_header(frame) + tail);
    assert(buf =~= line + grammar::crlf() + (behind_header(frame) + tail));
    lemma_head(frame);
    assert(line =~= bytes::ascii("MSG ") + spaced(fields(frame)));
    assert(bytes::ascii("MSG ") =~= line.take(bytes::ascii("MSG ").len() as int));
    assert(buf.subrange(line.len() as int + 2, line.len() as int + 2 + payload.len()) =~= payload);
    assert(buf.skip(code.len() as int) =~= tail);
    line.len() as int
}

/// A line is found at the head of a buffer, whatever follows it.
pub proof fn lemma_line_at_head(line: Seq<u8>, tail: Seq<u8>)
    requires
        on_one_line(line),
    ensures
        grammar::line_end(line + seq![13u8, 10u8] + tail) == Some(line.len() as int),
        (line + seq![13u8, 10u8] + tail).take(line.len() as int) == line,
        (line + seq![13u8, 10u8] + tail).skip(line.len() as int + 2) == tail,
{
    lemma_first_line(line, tail);
    assert(line + seq![13u8, 10u8] + tail =~= line + grammar::crlf() + tail);
    assert((line + seq![13u8, 10u8] + tail).skip(line.len() as int + 2) =~= tail);
}

/// The length of a payload takes at most twenty digits.
pub proof fn lemma_count_is_short(n: nat)
    requires
        n <= usize::MAX,
    ensures
        grammar::decimal(n).len() <= 20,
{
    assert(vstd::arithmetic::power::pow(10, 20) == 100_000_000_000_000_000_000) by {
        reveal_with_fuel(vstd::arithmetic::power::pow, 21);
    }
    lemma_decimal_len(n, 20, 100_000_000_000_000_000_000);
}

/// Where the first line of a buffer ends: at the first carriage return that a
/// line feed follows.
pub proof fn law_where_a_line_ends(buf: Seq<u8>, end: int)
    ensures
        grammar::line_end(buf) == Some(end) <==> (0 <= end < buf.len() - 1 && buf[end] == 13
            && buf[end + 1] == 10 && forall|j: int|
            0 <= j < end ==> !(#[trigger] buf[j] == 13 && buf[j + 1] == 10)),
        grammar::line_end(buf) is None ==> forall|j: int|
            0 <= j < buf.len() - 1 ==> !(#[trigger] buf[j] == 13 && buf[j + 1] == 10),
{
    if grammar::line_end(buf) == Some(end) {
        assert(grammar::is_line_end(buf, end));
        assert forall|j: int| 0 <= j < end implies !(#[trigger] buf[j] == 13 && buf[j + 1]
            == 10) by {
            assert(!grammar::crlf_at(buf, j));
        }
    }
    if 0 <= end < buf.len() - 1 && buf[end] == 13 && buf[end + 1] == 10 && forall|j: int|
        0 <= j < end ==> !(#[trigger] buf[j] == 13 && buf[j + 1] == 10) {
        assert forall|j: int| 0 <= j < end implies !grammar::crlf_at(buf, j) by {
            assert(!(buf[j] == 13 && buf[j + 1] == 10));
        }
        assert(grammar::is_line_end(buf, end));
        grammar::lemma_line_end(buf, end);
    }
    if grammar::line_end(buf) is None {
        assert forall|j: int| 0 <= j < buf.len() - 1 implies !(#[trigger] buf[j] == 13 && buf[j + 1]
            == 10) by {
            if buf[j] == 13 && buf[j + 1] == 10 {
                lemma_some_line(buf, j);
            }
        }
    }
}

/// Where a terminator stands, some line ends.
proof fn lemma_some_line(buf: Seq<u8>, j: int)
    requires
        grammar::crlf_at(buf, j),
    ensures
        exists|i: int| grammar::is_line_end(buf, i),
    decreases j,
{
    if forall|i: int| 0 <= i < j ==> !grammar::crlf_at(buf, i) {
        assert(grammar::is_line_end(buf, j));
    } else {
        let i = choose|i: int| 0 <= i < j && grammar::crlf_at(buf, i);
        lemma_some_line(buf, i);
    }
}

/// What can be a field of a header line: bytes, at least one, without a space,
/// a tab or a line terminator among them.
pub proof fn law_what_a_word_is(s: Seq<u8>)
    ensures
        on_one_line(s) <==> forall|i: int|
            0 <= i < s.len() - 1 ==> !(#[trigger] s[i] == 13 && s[i + 1] == 10),
        is_word(s) <==> is_unbroken(s) && on_one_line(s),
{
    if on_one_line(s) {
        assert forall|i: int| 0 <= i < s.len() - 1 implies !(#[trigger] s[i] == 13 && s[i + 1]
            == 10) by {
            assert(!grammar::crlf_at(s, i));
        }
    }
    if forall|i: int| 0 <= i < s.len() - 1 ==> !(#[trigger] s[i] == 13 && s[i + 1] == 10) {
        assert forall|i: int| !grammar::crlf_at(s, i) by {
            if grammar::crlf_at(s, i) {
                assert(s[i] == 13 && s[i + 1] == 10);
            }
        }
    }
    if is_word(s) {
        assert forall|i: int| 0 <= i < s.len() implies #[trigger] s[i] != 32 && s[i] != 9 by {
            assert(!grammar::is_blank(s[i]));
        }
    }
    if is_unbroken(s) {
        assert forall|i: int| 0 <= i < s.len() implies !grammar::is_blank(#[trigger] s[i]) by {
            assert(s[i] != 32 && s[i] != 9);
        }
    }
}

/// What the protocol can carry: any field that is a word, any payload, any
/// message on one line, and options on one line that are not empty.
pub proof fn law_what_is_legal(a: Seq<u8>, b: Seq<u8>, o: Option<Seq<u8>>, max: Option<u64>)
    ensures
        ({
            let fits = o is None || is_word(o->0);
            &&& legal(FrameView::Ping) && legal(FrameView::Pong) && legal(FrameView::Ack)
            &&& legal(FrameView::Error { message: a }) == on_one_line(a)
            &&& legal(FrameView::Info { options: a }) == (a.len() > 0 && on_one_line(a))
            &&& legal(FrameView::Connect { options: a }) == (a.len() > 0 && on_one_line(a))
            &&& legal(FrameView::Sub { subject: a, queue_group: o, sid: b }) == (is_word(a)
                && is_word(b) && fits)
            &&& legal(FrameView::Unsub { sid: a, max_msgs: max }) == is_word(a)
            &&& legal(FrameView::Pub { subject: a, reply_to: o, payload: b }) == (is_word(a)
                && fits)
            &&& forall|payload: Seq<u8>| #[trigger]
                legal(FrameView::Msg { subject: a, sid: b, reply_to: o, payload }) == (is_word(a)
                    && is_word(b) && fits)
        }),
{
}

} // verus!
