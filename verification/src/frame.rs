//! Wire-frame data type.

use vstd::prelude::*;

verus! {

/// A NATS-core wire frame, with all variable-length fields borrowed from
/// the input buffer.
///
/// `Frame<'a>` holds slices into the buffer the frame was parsed from;
/// the frame is valid only as long as that buffer is alive.
#[derive(Debug, Clone, PartialEq, Eq)]
pub enum Frame<'a> {
    /// `CONNECT { ... }\r\n`: client to server greeting.
    ///
    /// The codec does not parse the JSON body.
    Connect {
        /// JSON body bytes, without the leading `CONNECT ` and without
        /// the trailing `\r\n`.
        options: &'a [u8],
    },
    /// `PUB <subject> [reply-to] <#bytes>\r\n<payload>\r\n`:
    /// client-published message.
    Pub {
        /// Subject the message is published to.
        subject: &'a [u8],
        /// Optional reply subject.
        reply_to: Option<&'a [u8]>,
        /// Message payload bytes; length matches the header byte count.
        payload: &'a [u8],
    },
    /// `SUB <subject> [queue-group] <sid>\r\n`: client subscription.
    Sub {
        /// Subject to subscribe to (may hold wildcards).
        subject: &'a [u8],
        /// Optional queue group; load-balanced delivery within the group.
        queue_group: Option<&'a [u8]>,
        /// Client-chosen subscription identifier.
        sid: &'a [u8],
    },
    /// `UNSUB <sid> [max_msgs]\r\n`: client unsubscribe.
    Unsub {
        /// Subscription identifier from the matching `SUB`.
        sid: &'a [u8],
        /// Optional auto-unsubscribe-after-N-messages count.
        max_msgs: Option<u64>,
    },
    /// `MSG <subject> <sid> [reply-to] <#bytes>\r\n<payload>\r\n`:
    /// server-delivered message.
    Msg {
        /// Subject the message was published to.
        subject: &'a [u8],
        /// Subscription identifier matched by the routing layer.
        sid: &'a [u8],
        /// Optional reply subject set by the publisher.
        reply_to: Option<&'a [u8]>,
        /// Message payload bytes; length matches the header byte count.
        payload: &'a [u8],
    },
    /// `PING\r\n`: keepalive request.
    Ping,
    /// `PONG\r\n`: keepalive response.
    Pong,
    /// `INFO { ... }\r\n`: server to client greeting / cluster update.
    Info {
        /// JSON body bytes; the codec does not parse it.
        options: &'a [u8],
    },
    /// `+OK\r\n`: acknowledgement (sent only when the client requested
    /// `verbose` mode in `CONNECT`).
    Ack,
    /// `-ERR <message>\r\n`: protocol-level error from the server.
    Error {
        /// Human-readable error description.
        message: &'a [u8],
    },
}

/// What a frame says, free of the buffer it was parsed from.
#[verifier::ext_equal]
pub enum FrameView {
    Connect { options: Seq<u8> },
    Pub { subject: Seq<u8>, reply_to: Option<Seq<u8>>, payload: Seq<u8> },
    Sub { subject: Seq<u8>, queue_group: Option<Seq<u8>>, sid: Seq<u8> },
    Unsub { sid: Seq<u8>, max_msgs: Option<u64> },
    Msg { subject: Seq<u8>, sid: Seq<u8>, reply_to: Option<Seq<u8>>, payload: Seq<u8> },
    Ping,
    Pong,
    Info { options: Seq<u8> },
    Ack,
    Error { message: Seq<u8> },
}

/// The bytes behind an optional field.
pub open spec fn opt_bytes(field: Option<&[u8]>) -> Option<Seq<u8>> {
    match field {
        Some(b) => Some(b@),
        None => None,
    }
}

impl View for Frame<'_> {
    type V = FrameView;

    open spec fn view(&self) -> FrameView {
        match *self {
            Frame::Connect { options } => FrameView::Connect { options: options@ },
            Frame::Pub { subject, reply_to, payload } => FrameView::Pub {
                subject: subject@,
                reply_to: opt_bytes(reply_to),
                payload: payload@,
            },
            Frame::Sub { subject, queue_group, sid } => FrameView::Sub {
                subject: subject@,
                queue_group: opt_bytes(queue_group),
                sid: sid@,
            },
            Frame::Unsub { sid, max_msgs } => FrameView::Unsub { sid: sid@, max_msgs },
            Frame::Msg { subject, sid, reply_to, payload } => FrameView::Msg {
                subject: subject@,
                sid: sid@,
                reply_to: opt_bytes(reply_to),
                payload: payload@,
            },
            Frame::Ping => FrameView::Ping,
            Frame::Pong => FrameView::Pong,
            Frame::Info { options } => FrameView::Info { options: options@ },
            Frame::Ack => FrameView::Ack,
            Frame::Error { message } => FrameView::Error { message: message@ },
        }
    }
}

/// A frame says what its fields hold, each of them as it is.
pub proof fn law_frames_say_what_they_hold(
    a: &[u8],
    b: &[u8],
    c: &[u8],
    o: Option<&[u8]>,
    max: Option<u64>,
)
    ensures
        ({
            let said = if o is Some {
                Some(o->0@)
            } else {
                None
            };
            &&& Frame::Connect { options: a }@ == (FrameView::Connect { options: a@ })
            &&& Frame::Info { options: a }@ == (FrameView::Info { options: a@ })
            &&& Frame::Error { message: a }@ == (FrameView::Error { message: a@ })
            &&& Frame::Pub { subject: a, reply_to: o, payload: b }@ == (FrameView::Pub {
                subject: a@,
                reply_to: said,
                payload: b@,
            })
            &&& Frame::Sub { subject: a, queue_group: o, sid: b }@ == (FrameView::Sub {
                subject: a@,
                queue_group: said,
                sid: b@,
            })
            &&& Frame::Unsub { sid: a, max_msgs: max }@ == (FrameView::Unsub {
                sid: a@,
                max_msgs: max,
            })
            &&& Frame::Msg { subject: a, sid: b, reply_to: o, payload: c }@ == (FrameView::Msg {
                subject: a@,
                sid: b@,
                reply_to: said,
                payload: c@,
            })
            &&& Frame::Ping@ == FrameView::Ping
            &&& Frame::Pong@ == FrameView::Pong
            &&& Frame::Ack@ == FrameView::Ack
        }),
{
}

} // verus!
