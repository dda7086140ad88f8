//! The broker logic of one worker: connections, frames and fan-out.

use crate::bytes::{self, boxed, text};
use crate::connection_state::{self, CloseReason, ConnectionState, DEFAULT_OUTBOUND_CAPACITY};
use crate::dispatch::{self, pick_index, split_groups, Target};
use crate::emit::{self, emit_msg};
use crate::frame::{self, Frame, FrameView};
use crate::grammar::{self, OutcomeView};
use crate::links::{self, Links, LinksView};
use crate::matching::{self, Entry};
use crate::parse::{parse_frame, ParseOutcome};
use crate::sid_map::SidMap;
use crate::subject::{self, SubjectError, MAX_ITEMS};
use crate::subscription::{ConnectionId, Sub, SubView, SubscriptionTrie};
use crate::writer::{self, WriterStep};
use vstd::prelude::*;

verus! {

/// Advertised and enforced maximum payload size. The greeting advertises this
/// same number so clients will refuse to send larger messages locally.
pub const MAX_PAYLOAD_BYTES: usize = 1024 * 1024;

/// Maximum number of bytes that a connection may have sent without completing
/// a frame. A published message is the largest possible frame; twice its
/// payload gives the header generous headroom and bounds what a client can
/// make the broker hold that never terminates a frame.
pub const MAX_FRAME_SIZE: usize = MAX_PAYLOAD_BYTES * 2;

/// Size of the buffer that messages are encoded in: one message with the
/// maximum payload, plus header.
pub const EMIT_SCRATCH_CAPACITY: usize = MAX_PAYLOAD_BYTES + 4096;

/// Where the random numbers of a worker start.
pub const RANDOM_SEED: u64 = 0x1234_5678_9abc_def0;

/// What a worker holds.
#[verifier::ext_equal]
pub struct WorkerView {
    /// The live subscriptions.
    pub table: Seq<Entry>,
    /// The live connections and the pending wake-ups.
    pub links: LinksView,
    /// The id that the next connection gets.
    pub next_conn_id: u32,
    /// The state of the random numbers.
    pub random: u64,
}

/// The text that a message to a malformed subject is refused with.
pub open spec fn subject_refusal(e: SubjectError) -> Seq<u8> {
    match e {
        SubjectError::Empty => bytes::ascii("empty subject"),
        SubjectError::EmptyToken => bytes::ascii("empty token in subject"),
        SubjectError::WildcardInPublish => bytes::ascii("wildcard not allowed in publish subject"),
        SubjectError::InvalidGreaterPosition => bytes::ascii("`>` must be the last token"),
    }
}

/// The text that a message to a malformed subject is refused with.
pub fn subject_error_text(e: SubjectError) -> (r: &'static [u8])
    ensures
        r@ == subject_refusal(e),
{
    assert(vstd::string::is_ascii("empty subject")) by {
        reveal_strlit("empty subject");
    }
    assert(vstd::string::is_ascii("empty token in subject")) by {
        reveal_strlit("empty token in subject");
    }
    assert(vstd::string::is_ascii("wildcard not allowed in publish subject")) by {
        reveal_strlit("wildcard not allowed in publish subject");
    }
    assert(vstd::string::is_ascii("`>` must be the last token")) by {
        reveal_strlit("`>` must be the last token");
    }
    match e {
        SubjectError::Empty => text("empty subject"),
        SubjectError::EmptyToken => text("empty token in subject"),
        SubjectError::WildcardInPublish => text("wildcard not allowed in publish subject"),
        SubjectError::InvalidGreaterPosition => text("`>` must be the last token"),
    }
}

/// A request of connection `id` is refused.
pub open spec fn refused(w: WorkerView, id: u32, message: Seq<u8>) -> WorkerView {
    WorkerView { links: links::refused(w.links, id, message), ..w }
}

/// A message is enqueued for the first `k` receivers, one after the other.
pub open spec fn delivered(
    l: LinksView,
    to: Seq<Target>,
    k: int,
    subject: Seq<u8>,
    reply_to: Option<Seq<u8>>,
    payload: Seq<u8>,
) -> LinksView
    decreases k,
{
    if k <= 0 {
        l
    } else {
        let t = to[k - 1];
        links::replied(
            delivered(l, to, k - 1, subject, reply_to, payload),
            t.conn_id,
            FrameView::Msg { subject, sid: t.sid, reply_to, payload },
            EMIT_SCRATCH_CAPACITY as nat,
        )
    }
}

/// A message is published by connection `id`.
pub open spec fn published(
    w: WorkerView,
    id: u32,
    subject: Seq<u8>,
    reply_to: Option<Seq<u8>>,
    payload: Seq<u8>,
) -> WorkerView {
    match subject::published(subject) {
        Err(e) => refused(w, id, subject_refusal(e)),
        Ok(tokens) => {
            let subs = matching::matched(w.table, tokens);
            let to = dispatch::receivers(subs, w.random);
            WorkerView {
                links: delivered(w.links, to, to.len() as int, subject, reply_to, payload),
                random: dispatch::random_after(w.random, dispatch::group_names(subs).len()),
                ..w
            }
        },
    }
}

/// One frame of connection `id` is acted on.
pub open spec fn handled(
    w: WorkerView,
    id: u32,
    subs: Map<Seq<u8>, Seq<u8>>,
    frame: FrameView,
) -> (WorkerView, Map<Seq<u8>, Seq<u8>>) {
    match frame {
        FrameView::Connect { .. } | FrameView::Pong => (w, subs),
        FrameView::Ping => (
            WorkerView { links: links::replied(w.links, id, FrameView::Pong, 8), ..w },
            subs,
        ),
        FrameView::Sub { subject, queue_group, sid } => match subject::subscribed(subject) {
            Ok(pattern) => (
                WorkerView {
                    table: w.table.push(
                        Entry { pattern, sub: SubView { conn_id: id, sid, queue_group } },
                    ),
                    ..w
                },
                subs.insert(sid, subject),
            ),
            Err(_) => (refused(w, id, bytes::ascii("invalid subject")), subs),
        },
        FrameView::Unsub { sid, max_msgs } => if max_msgs is Some {
            (refused(w, id, bytes::ascii("UNSUB max_msgs not supported")), subs)
        } else if subs.contains_key(sid) {
            (
                WorkerView {
                    table: match subject::subscribed(subs[sid]) {
                        Ok(pattern) => matching::without(w.table, pattern, id, sid),
                        Err(_) => w.table,
                    },
                    ..w
                },
                subs.remove(sid),
            )
        } else {
            (w, subs)
        },
        FrameView::Pub { subject, reply_to, payload } => if payload.len() > MAX_PAYLOAD_BYTES {
            (refused(w, id, bytes::ascii("maximum payload exceeded")), subs)
        } else {
            (published(w, id, subject, reply_to, payload), subs)
        },
        FrameView::Msg { .. } | FrameView::Info { .. } | FrameView::Ack | FrameView::Error { .. } => (
            refused(w, id, bytes::ascii("unexpected verb")),
            subs,
        ),
    }
}

/// Connection `id` is marked for close.
pub open spec fn is_closing(w: WorkerView, id: u32) -> bool {
    w.links.connections[id].closing is Some
}

/// Connection `id` broke the protocol.
pub open spec fn protocol_error(w: WorkerView, id: u32) -> WorkerView {
    WorkerView { links: links::hung_up(w.links, id, CloseReason::ProtocolError), ..w }
}

/// Where reading has come to.
#[verifier::ext_equal]
pub struct Progress {
    pub worker: WorkerView,
    pub subs: Map<Seq<u8>, Seq<u8>>,
    pub accum: Seq<u8>,
}

/// The frames in `p.accum` are acted on one by one, until more bytes are
/// needed or the connection is to be closed.
pub open spec fn processed(p: Progress, id: u32) -> Progress
    decreases p.accum.len(),
    via processed_decreases
{
    match grammar::parsed(p.accum) {
        OutcomeView::NeedMore => p,
        OutcomeView::Error(_) => Progress { worker: protocol_error(p.worker, id), ..p },
        OutcomeView::Frame { frame, consumed } => {
            let (worker, subs) = handled(p.worker, id, p.subs, frame);
            let next = Progress { worker, subs, accum: p.accum.skip(consumed) };
            if is_closing(worker, id) {
                next
            } else {
                processed(next, id)
            }
        },
    }
}

#[via_fn]
proof fn processed_decreases(p: Progress, id: u32) {
    crate::codec::law_consumed_is_within(p.accum);
}

/// `bytes` have been read from connection `id`.
pub open spec fn received(p: Progress, id: u32, bytes: Seq<u8>) -> Progress {
    let more = Progress { accum: p.accum + bytes, ..p };
    if more.accum.len() > MAX_FRAME_SIZE {
        Progress { worker: protocol_error(p.worker, id), ..more }
    } else {
        processed(more, id)
    }
}

/// A table of `held` subscriptions can hold those that `unread` bytes of a
/// connection may make. More bytes than a connection may send without
/// completing a frame make none.
pub open spec fn can_hold(held: nat, unread: nat) -> bool {
    unread <= MAX_FRAME_SIZE ==> held + unread < MAX_ITEMS
}

/// Connection `id` is gone, with every subscription that it had.
pub open spec fn left(w: WorkerView, id: u32) -> WorkerView {
    WorkerView {
        table: matching::without_connection(w.table, id),
        links: LinksView { connections: w.links.connections.remove(id), ..w.links },
        ..w
    }
}

/// Every subject is as short as one that came in a frame.
pub open spec fn short_subjects(subs: Map<Seq<u8>, Seq<u8>>) -> bool {
    forall|sid: Seq<u8>| #[trigger]
        subs.contains_key(sid) ==> subs[sid].len() <= MAX_FRAME_SIZE
}

/// What a reader keeps between reads.
#[verifier::ext_equal]
pub struct ReaderView {
    /// The connection.
    pub id: u32,
    /// Bytes read and not yet consumed.
    pub accum: Seq<u8>,
    /// The subject under each `sid`.
    pub subs: Map<Seq<u8>, Seq<u8>>,
}

/// The reader of one connection.
pub struct Reader {
    id: ConnectionId,
    accum: Vec<u8>,
    subscriptions: SidMap,
}

impl View for Reader {
    type V = ReaderView;

    closed spec fn view(&self) -> ReaderView {
        ReaderView { id: self.id@, accum: self.accum@, subs: self.subscriptions@ }
    }
}

impl Reader {
    /// No `sid` occurs twice, and every subject is one that came in a frame.
    pub closed spec fn wf(self) -> bool {
        &&& self.subscriptions.wf()
        &&& short_subjects(self.subscriptions@)
    }

    /// The reader of a connection that has sent nothing yet.
    pub fn new(id: ConnectionId) -> (r: Self)
        ensures
            r.wf(),
            r@ == (ReaderView { id: id@, accum: Seq::empty(), subs: Map::empty() }),
    {
        Reader { id, accum: Vec::new(), subscriptions: SidMap::new() }
    }

    /// The connection.
    pub fn id(&self) -> (r: ConnectionId)
        ensures
            r@ == self@.id,
    {
        self.id
    }
}

/// Per-worker state: the subscription table, the connections, the buffer that
/// messages are encoded in, and the random numbers that queue-group dispatch
/// draws on.
pub struct Worker {
    table: SubscriptionTrie,
    links: Links,
    next_conn_id: u32,
    emit_scratch: Vec<u8>,
    random: u64,
}

impl View for Worker {
    type V = WorkerView;

    closed spec fn view(&self) -> WorkerView {
        WorkerView {
            table: self.table@,
            links: self.links@,
            next_conn_id: self.next_conn_id,
            random: self.random,
        }
    }
}

/// The options that the greeting carries.
pub open spec fn server_info() -> Seq<u8> {
    bytes::ascii(
        "{\"server_id\":\"aulon\",\"server_name\":\"aulon\",\"version\":\"0.0.1\",\"host\":\"127.0.0.1\",\"port\":4222,\"max_payload\":1048576,\"proto\":1,\"headers\":false,\"jetstream\":false}",
    )
}

/// The id that comes behind another; behind the last comes zero.
pub open spec fn following_id(id: u32) -> u32 {
    if id == u32::MAX {
        0
    } else {
        (id + 1) as u32
    }
}

/// The `k`-th id from `start` on.
pub open spec fn nth_id(start: u32, k: nat) -> u32
    decreases k,
{
    if k == 0 {
        start
    } else {
        following_id(nth_id(start, (k - 1) as nat))
    }
}

/// Ids count up by one and start over behind the last, so that none comes a
/// second time before all others have come.
pub proof fn law_ids_come_round(start: u32, k: nat)
    ensures
        nth_id(start, k) as int == (start + k) % 0x1_0000_0000,
        0 < k < 0x1_0000_0000 ==> nth_id(start, k) != start,
        nth_id(start, 0x1_0000_0000) == start,
{
    lemma_nth_id(start, k);
    lemma_nth_id(start, 0x1_0000_0000);
}

proof fn lemma_nth_id(start: u32, k: nat)
    ensures
        nth_id(start, k) as int == (start + k) % 0x1_0000_0000,
    decreases k,
{
    if k > 0 {
        lemma_nth_id(start, (k - 1) as nat);
    }
}

/// A new connection is taken in under `id`.
pub open spec fn accepted(w: WorkerView, id: u32) -> WorkerView {
    WorkerView {
        links: links::replaced(
            w.links,
            id,
            connection_state::fresh(DEFAULT_OUTBOUND_CAPACITY as nat),
        ),
        ..w
    }
}

/// Connection `id` is sent the greeting.
pub open spec fn greeted(w: WorkerView, id: u32) -> WorkerView {
    WorkerView {
        links: links::sent(
            w.links,
            id,
            emit::encoded(FrameView::Info { options: server_info() }),
        ),
        ..w
    }
}

/// The greeting is the first thing that a new connection is sent, and it has
/// room for it.
pub proof fn lemma_greeting_fits(w: WorkerView, id: u32)
    ensures
        ({
            let o = greeted(accepted(w, id), id).links.connections;
            &&& o.contains_key(id)
            &&& o[id].pending == emit::encoded(FrameView::Info { options: server_info() })
            &&& o[id].closing is None
        }),
{
    let code = emit::encoded(FrameView::Info { options: server_info() });
    reveal_strlit(
        "{\"server_id\":\"aulon\",\"server_name\":\"aulon\",\"version\":\"0.0.1\",\"host\":\"127.0.0.1\",\"port\":4222,\"max_payload\":1048576,\"proto\":1,\"headers\":false,\"jetstream\":false}",
    );
    crate::codec::lemma_encoded_len(server_info());
    assert(Seq::<u8>::empty() + code =~= code);
}

impl Worker {
    /// The table and the connections are well formed, and messages have their
    /// buffer.
    pub closed spec fn wf(self) -> bool {
        &&& self.table.wf()
        &&& self.links.wf()
        &&& self.emit_scratch@.len() == EMIT_SCRATCH_CAPACITY
    }

    /// A worker without connections.
    pub fn new() -> (r: Self)
        ensures
            r.wf(),
            r@ == (WorkerView {
                table: Seq::empty(),
                links: LinksView { connections: Map::empty(), woken: Seq::empty() },
                next_conn_id: 0,
                random: RANDOM_SEED,
            }),
    {
        Worker {
            table: SubscriptionTrie::new(),
            links: Links::new(),
            next_conn_id: 0,
            emit_scratch: vec![0;EMIT_SCRATCH_CAPACITY],
            random: RANDOM_SEED,
        }
    }

    /// The id for a new connection. Ids count up, and start over behind the
    /// last.
    pub fn next_id(&mut self) -> (id: ConnectionId)
        requires
            old(self).wf(),
        ensures
            final(self).wf(),
            id@ == old(self)@.next_conn_id,
            final(self)@.next_conn_id == following_id(id@),
            final(self)@ == (WorkerView {
                next_conn_id: if id@ == u32::MAX {
                    0
                } else {
                    (id@ + 1) as u32
                },
                ..old(self)@
            }),
    {
        let id: u32 = self.next_conn_id;
        self.next_conn_id = id.wrapping_add(1);
        ConnectionId::new(id)
    }

    /// Whether a connection is live under `id`.
    #[must_use]
    pub fn is_live(&self, id: ConnectionId) -> (r: bool)
        requires
            self.wf(),
        ensures
            r == self@.links.connections.contains_key(id@),
    {
        self.links.is_live(id)
    }

    /// Takes a new connection in under `id`. A connection that is live under
    /// that id gives way.
    pub fn accept(&mut self, id: ConnectionId)
        requires
            old(self).wf(),
        ensures
            final(self).wf(),
            final(self)@ == accepted(old(self)@, id@),
    {
        self.links.insert(id, DEFAULT_OUTBOUND_CAPACITY);
    }

    /// Sends the greeting to a connection that has been taken in.
    pub fn greet(&mut self, id: ConnectionId)
        requires
            old(self).wf(),
        ensures
            final(self).wf(),
            final(self)@ == greeted(old(self)@, id@),
    {
        assert(vstd::string::is_ascii(
            "{\"server_id\":\"aulon\",\"server_name\":\"aulon\",\"version\":\"0.0.1\",\"host\":\"127.0.0.1\",\"port\":4222,\"max_payload\":1048576,\"proto\":1,\"headers\":false,\"jetstream\":false}",
        ) && server_info().len() < 200) by {
            reveal_strlit(
                "{\"server_id\":\"aulon\",\"server_name\":\"aulon\",\"version\":\"0.0.1\",\"host\":\"127.0.0.1\",\"port\":4222,\"max_payload\":1048576,\"proto\":1,\"headers\":false,\"jetstream\":false}",
            );
        }
        proof {
            crate::codec::lemma_encoded_len(server_info());
        }
        self.links.greet(
            id,
            text(
                "{\"server_id\":\"aulon\",\"server_name\":\"aulon\",\"version\":\"0.0.1\",\"host\":\"127.0.0.1\",\"port\":4222,\"max_payload\":1048576,\"proto\":1,\"headers\":false,\"jetstream\":false}",
            ),
        );
    }

    /// Encodes one message for a receiver and enqueues it.
    fn deliver(
        &mut self,
        conn_id: ConnectionId,
        subject: &[u8],
        sid: &[u8],
        reply_to: Option<&[u8]>,
        payload: &[u8],
    )
        requires
            old(self).wf(),
        ensures
            final(self).wf(),
            final(self)@ == (WorkerView {
                links: links::replied(
                    old(self)@.links,
                    conn_id@,
                    FrameView::Msg {
                        subject: subject@,
                        sid: sid@,
                        reply_to: frame::opt_bytes(reply_to),
                        payload: payload@,
                    },
                    EMIT_SCRATCH_CAPACITY as nat,
                ),
                ..old(self)@
            }),
    {
        let ghost msg = FrameView::Msg {
            subject: subject@,
            sid: sid@,
            reply_to: frame::opt_bytes(reply_to),
            payload: payload@,
        };
        if let Ok(n) = emit_msg(&mut self.emit_scratch, subject, sid, reply_to, payload) {
            let encoded = &self.emit_scratch[0..n];
            assert(encoded@ =~= emit::encoded(msg));
            self.links.send(conn_id, encoded);
        }
    }

    /// Delivers a published message: to every matching subscriber without a
    /// queue group, and to one member of each queue group, picked with the
    /// worker's random numbers. A malformed subject is refused.
    fn handle_pub(
        &mut self,
        id: ConnectionId,
        subject: &[u8],
        reply_to: Option<&[u8]>,
        payload: &[u8],
    )
        requires
            old(self).wf(),
            old(self)@.table.len() <= MAX_ITEMS,
            subject@.len() <= MAX_FRAME_SIZE,
        ensures
            final(self).wf(),
            final(self)@ == published(
                old(self)@,
                id@,
                subject@,
                frame::opt_bytes(reply_to),
                payload@,
            ),
    {
        let ghost before = self@;
        let ghost tokens = subject::tokens(subject@);
        let ghost subs = matching::matched(before.table, tokens);
        proof {
            subject::lemma_token_count(subject@);
        }
        let (plain, groups) = match self.table.for_each_match(subject) {
            Ok(found) => {
                proof {
                    subject::lemma_publish_fault(tokens);
                    matching::lemma_matched_len(before.table, tokens);
                }
                split_groups(&found)
            },
            Err(e) => {
                self.links.emit_err_to(id, subject_error_text(e));
                return;
            },
        };
        let ghost to = dispatch::receivers(subs, before.random);
        let ghost reply = frame::opt_bytes(reply_to);
        let ghost names = dispatch::group_names(subs);
        let ghost k = dispatch::plain_targets(subs).len();
        proof {
            dispatch::lemma_group_names(subs);
        }
        let list = plain.as_slice();
        let mut i: usize = 0;
        while i < list.len()
            invariant
                self.wf(),
                i <= list@.len(),
                dispatch::targets(list@) == dispatch::plain_targets(subs),
                k == list@.len(),
                to == dispatch::receivers(subs, before.random),
                reply == frame::opt_bytes(reply_to),
                self@ == (WorkerView {
                    links: delivered(before.links, to, i as int, subject@, reply, payload@),
                    ..before
                }),
            decreases list@.len() - i,
        {
            assert(to[i as int] == dispatch::targets(list@)[i as int]);
            self.deliver(list[i].0, subject, &list[i].1, reply_to, payload);
            i += 1;
        }
        let buckets = groups.as_slice();
        let mut j: usize = 0;
        while j < buckets.len()
            invariant
                self.wf(),
                j <= buckets@.len(),
                dispatch::buckets_of(buckets@, subs),
                names == dispatch::group_names(subs),
                k == dispatch::plain_targets(subs).len(),
                to == dispatch::receivers(subs, before.random),
                reply == frame::opt_bytes(reply_to),
                forall|g: Seq<u8>| #[trigger]
                    names.contains(g) == (dispatch::members(subs, g).len() > 0),
                self@ == (WorkerView {
                    links: delivered(before.links, to, k + j, subject@, reply, payload@),
                    random: dispatch::random_after(before.random, j as nat),
                    ..before
                }),
            decreases buckets@.len() - j,
        {
            let members = buckets[j].members.as_slice();
            proof {
                assert(names.contains(names[j as int]));
                assert(buckets@[j as int].members@ == dispatch::members(subs, names[j as int]));
            }
            let pick: usize = pick_index(&mut self.random, members.len());
            proof {
                assert(self.random == dispatch::random_after(before.random, (j + 1) as nat));
                assert(to[k + j] == dispatch::picked(subs, before.random, j as int));
                assert(to[k + j] == dispatch::targets(members@)[pick as int]);
            }
            self.deliver(members[pick].0, subject, &members[pick].1, reply_to, payload);
            j += 1;
        }
    }

    /// Acts on one parsed frame of a connection. Any outbound effect is an
    /// enqueue for this connection, or for others when a message fans out.
    fn handle_frame(&mut self, frame: &Frame<'_>, id: ConnectionId, subscriptions: &mut SidMap)
        requires
            old(self).wf(),
            old(subscriptions).wf(),
            old(self)@.table.len() < MAX_ITEMS,
            frame@ matches FrameView::Sub { subject, .. } ==> subject.len() <= MAX_FRAME_SIZE,
            frame@ matches FrameView::Pub { subject, .. } ==> subject.len() <= MAX_FRAME_SIZE,
            short_subjects(old(subscriptions)@),
        ensures
            final(self).wf(),
            final(subscriptions).wf(),
            final(self)@ == handled(old(self)@, id@, old(subscriptions)@, frame@).0,
            final(subscriptions)@ == handled(old(self)@, id@, old(subscriptions)@, frame@).1,
    {
        match *frame {
            Frame::Connect { .. } | Frame::Pong => {
                // Options are not interpreted; a PONG needs no answer.
            },
            Frame::Ping => {
                self.links.pong(id);
            },
            Frame::Sub { subject, queue_group, sid } => {
                let new_sub = Sub {
                    conn_id: id,
                    sid: boxed(sid),
                    queue_group: match queue_group {
                        Some(group) => Some(boxed(group)),
                        None => None,
                    },
                };
                proof {
                    subject::lemma_token_count(subject@);
                }
                if self.table.subscribe(subject, new_sub).is_err() {
                    assert(vstd::string::is_ascii("invalid subject")) by {
                        reveal_strlit("invalid subject");
                    }
                    self.links.emit_err_to(id, text("invalid subject"));
                    return;
                }
                subscriptions.insert(sid, subject);
            },
            Frame::Unsub { sid, max_msgs } => {
                if max_msgs.is_some() {
                    assert(vstd::string::is_ascii("UNSUB max_msgs not supported")) by {
                        reveal_strlit("UNSUB max_msgs not supported");
                    }
                    self.links.emit_err_to(id, text("UNSUB max_msgs not supported"));
                    return;
                }
                let ghost kept = subscriptions@;
                match subscriptions.remove(sid) {
                    Some(subject) => {
                        proof {
                            subject::lemma_token_count(subject@);
                        }
                        self.table.unsubscribe(&subject, id, sid);
                    },
                    None => {
                        assert(kept.remove(sid@) =~= kept);
                    },
                }
            },
            Frame::Pub { subject, reply_to, payload } => {
                if payload.len() > MAX_PAYLOAD_BYTES {
                    assert(vstd::string::is_ascii("maximum payload exceeded")) by {
                        reveal_strlit("maximum payload exceeded");
                    }
                    self.links.emit_err_to(id, text("maximum payload exceeded"));
                    return;
                }
                self.handle_pub(id, subject, reply_to, payload);
            },
            Frame::Msg { .. } | Frame::Info { .. } | Frame::Ack | Frame::Error { .. } => {
                // Server-to-client direction; clients should not send these.
                assert(vstd::string::is_ascii("unexpected verb")) by {
                    reveal_strlit("unexpected verb");
                }
                self.links.emit_err_to(id, text("unexpected verb"));
            },
        }
    }

    /// Whether `n` bytes can be taken in from a connection: it is live, and
    /// the subscriptions that they may hold can be addressed.
    pub fn can_receive(&self, reader: &Reader, n: usize) -> (r: bool)
        requires
            self.wf(),
        ensures
            r == (self@.links.connections.contains_key(reader@.id) && can_hold(
                self@.table.len(),
                (reader@.accum.len() + n) as nat,
            )),
    {
        let held: usize = self.table.total_subscriptions();
        let unread: usize = reader.accum.len();
        if !self.links.is_live(reader.id) {
            return false;
        }
        if unread > MAX_FRAME_SIZE || n > MAX_FRAME_SIZE - unread {
            return true;
        }
        held < MAX_ITEMS && unread + n < MAX_ITEMS - held
    }

    /// Takes in `bytes` read from a connection and acts on the frames that
    /// they complete. Returns `false` when the connection is to be closed:
    /// after a malformed frame, when too many bytes complete no frame, or
    /// because it does not drain what is sent to it.
    pub fn receive(&mut self, reader: &mut Reader, bytes: &[u8]) -> (more: bool)
        requires
            old(self).wf(),
            old(reader).wf(),
            old(self)@.links.connections.contains_key(old(reader)@.id),
            can_hold(old(self)@.table.len(), old(reader)@.accum.len() + bytes@.len()),
        ensures
            final(self).wf(),
            final(reader).wf(),
            final(self)@.links.connections.contains_key(old(reader)@.id),
            ({
                let id = old(reader)@.id;
                let p = received(
                    Progress {
                        worker: old(self)@,
                        subs: old(reader)@.subs,
                        accum: old(reader)@.accum,
                    },
                    id,
                    bytes@,
                );
                &&& final(self)@ == p.worker
                &&& final(reader)@ == (ReaderView { id, accum: p.accum, subs: p.subs })
                &&& more == !is_closing(p.worker, id)
            }),
    {
        let id: ConnectionId = reader.id;
        reader.accum.extend_from_slice(bytes);
        assert(reader.accum@ =~= old(reader)@.accum + bytes@);
        if reader.accum.len() > MAX_FRAME_SIZE {
            self.links.hang_up(id, CloseReason::ProtocolError);
            return false;
        }
        let ghost goal = processed(
            Progress {
                worker: self@,
                subs: reader.subscriptions@,
                accum: reader.accum@,
            },
            id@,
        );
        let ghost start = reader.accum@;
        let len: usize = reader.accum.len();
        let mut consumed_total: usize = 0;
        assert(start.skip(0) =~= start);
        loop
            invariant_except_break
                goal == processed(
                    Progress {
                        worker: self@,
                        subs: reader.subscriptions@,
                        accum: start.skip(consumed_total as int),
                    },
                    id@,
                ),
            invariant
                self.wf(),
                reader.wf(),
                reader.id == id,
                reader.accum@ == start,
                len == start.len(),
                consumed_total <= len <= MAX_FRAME_SIZE,
                self@.links.connections.contains_key(id@),
                self@.table.len() + (len - consumed_total) < MAX_ITEMS,
            ensures
                goal == (Progress {
                    worker: self@,
                    subs: reader.subscriptions@,
                    accum: start.skip(consumed_total as int),
                }),
            decreases len - consumed_total,
        {
            let ghost left = start.skip(consumed_total as int);
            let window = &reader.accum[consumed_total..len];
            assert(window@ =~= left);
            proof {
                crate::codec::law_consumed_is_within(left);
                crate::codec::lemma_subject_is_within(left);
            }
            match parse_frame(window) {
                ParseOutcome::Frame { frame, consumed } => {
                    let ghost w = self@;
                    let ghost subs = reader.subscriptions@;
                    proof {
                        lemma_handled_keeps(w, id@, subs, frame@);
                    }
                    self.handle_frame(&frame, id, &mut reader.subscriptions);
                    consumed_total = consumed_total + consumed;
                    assert(left.skip(consumed as int) =~= start.skip(consumed_total as int));
                    if self.links.close_reason(id).is_some() {
                        break;
                    }
                },
                ParseOutcome::NeedMore => {
                    break;
                },
                ParseOutcome::Error(_) => {
                    self.links.hang_up(id, CloseReason::ProtocolError);
                    break;
                },
            }
        }
        if consumed_total > 0 {
            let mut rest: Vec<u8> = Vec::new();
            rest.extend_from_slice(&reader.accum[consumed_total..len]);
            assert(rest@ =~= start.skip(consumed_total as int));
            reader.accum = rest;
        } else {
            assert(start.skip(0) =~= start);
        }
        self.links.close_reason(id).is_none()
    }

    /// Lets a connection go whose reader has come to its end: its
    /// subscriptions leave the table, all of them, messages no longer reach
    /// it, and its state, marked for close, goes back to the caller for the
    /// writer to drain. A reason to close that was there before stays.
    pub fn disconnect(&mut self, reader: Reader) -> (state: Option<ConnectionState>)
        requires
            old(self).wf(),
        ensures
            final(self).wf(),
            final(self)@ == left(old(self)@, reader@.id),
            state is Some == old(self)@.links.connections.contains_key(reader@.id),
            state matches Some(c) ==> {
                &&& c.wf()
                &&& c.owner() == reader@.id
                &&& c@ == connection_state::closed(
                    old(self)@.links.connections[reader@.id],
                    CloseReason::PeerClosed,
                )
            },
    {
        let id: ConnectionId = reader.id;
        self.table.remove_connection(id);
        match self.links.remove(id) {
            Some(c) => {
                let mut state = c;
                state.mark_close(CloseReason::PeerClosed);
                Some(state)
            },
            None => None,
        }
    }

    /// The next step of the writer of a live connection, with the bytes to
    /// write at the head of `buf`. `None` if the connection is not live.
    pub fn write_next(&mut self, id: ConnectionId, buf: &mut [u8]) -> (step: Option<WriterStep>)
        requires
            old(self).wf(),
        ensures
            final(self).wf(),
            final(buf)@.len() == old(buf)@.len(),
            step is Some == old(self)@.links.connections.contains_key(id@),
            step is None ==> final(self)@ == old(self)@ && final(buf)@ == old(buf)@,
            step matches Some(s) ==> {
                let o = old(self)@.links.connections[id@];
                &&& s == writer::next_step(o, old(buf)@.len())
                &&& final(self)@ == (WorkerView {
                    links: LinksView {
                        connections: old(self)@.links.connections.insert(
                            id@,
                            writer::stepped(o, old(buf)@.len()),
                        ),
                        ..old(self)@.links
                    },
                    ..old(self)@
                })
                &&& s is Finish || s is Stop ==> final(self)@.links.connections[id@].closing is None
                &&& s matches WriterStep::Write(n) ==> final(buf)@.take(n as int)
                    == o.pending.take(n as int)
                &&& s matches WriterStep::Finish(n) ==> final(buf)@.take(n as int)
                    == emit::encoded(
                    FrameView::Error { message: writer::last_words(o)->0 },
                )
            },
    {
        self.links.write_next(id, buf)
    }

    /// A connection whose writer has to be woken, taken off the list.
    pub fn next_woken(&mut self) -> (r: Option<ConnectionId>)
        requires
            old(self).wf(),
        ensures
            final(self).wf(),
            r is Some == (old(self)@.links.woken.len() > 0),
            r matches Some(id) ==> id@ == old(self)@.links.woken.last(),
            final(self)@ == (WorkerView {
                links: LinksView {
                    woken: if r is Some {
                        old(self)@.links.woken.drop_last()
                    } else {
                        old(self)@.links.woken
                    },
                    ..old(self)@.links
                },
                ..old(self)@
            }),
    {
        self.links.next_woken()
    }
}

/// Acting on a frame keeps the connections that are live, adds at most one
/// subscription, and keeps subjects short.
pub proof fn lemma_handled_keeps(
    w: WorkerView,
    id: u32,
    subs: Map<Seq<u8>, Seq<u8>>,
    frame: FrameView,
)
    ensures
        handled(w, id, subs, frame).0.links.connections.dom() == w.links.connections.dom(),
        handled(w, id, subs, frame).0.table.len() <= w.table.len() + 1,
        short_subjects(subs) && (frame matches FrameView::Sub { subject, .. } ==> subject.len()
            <= MAX_FRAME_SIZE) ==> short_subjects(handled(w, id, subs, frame).1),
{
    match frame {
        FrameView::Pub { subject, reply_to, payload } => {
            if let Ok(tokens) = subject::published(subject) {
                let to = dispatch::receivers(matching::matched(w.table, tokens), w.random);
                lemma_delivered_keeps(w.links, to, to.len() as int, subject, reply_to, payload);
            }
        },
        FrameView::Unsub { sid, max_msgs } => {
            if subs.contains_key(sid) {
                if let Ok(pattern) = subject::subscribed(subs[sid]) {
                    matching::lemma_under_without(w.table, pattern, id, sid);
                }
            }
        },
        _ => {},
    }
    assert(handled(w, id, subs, frame).0.links.connections.dom() =~= w.links.connections.dom());
}

proof fn lemma_delivered_keeps(
    l: LinksView,
    to: Seq<Target>,
    k: int,
    subject: Seq<u8>,
    reply_to: Option<Seq<u8>>,
    payload: Seq<u8>,
)
    ensures
        delivered(l, to, k, subject, reply_to, payload).connections.dom() == l.connections.dom(),
    decreases k,
{
    if k > 0 {
        lemma_delivered_keeps(l, to, k - 1, subject, reply_to, payload);
        assert(delivered(l, to, k, subject, reply_to, payload).connections.dom()
            =~= l.connections.dom());
    }
}

} // verus!
