//! What the broker promises its clients.

use crate::bytes;
use crate::codec;
use crate::connection_state::{self, CloseReason};
use crate::dispatch::{self, Target};
use crate::emit;
use crate::frame::FrameView;
use crate::grammar::{self, OutcomeView};
use crate::links::{self, LinksView};
use crate::matching::{self, Entry};
use crate::subject::{self, SubjectError};
use crate::subscription;
use crate::worker::{
    self, Progress, WorkerView, EMIT_SCRATCH_CAPACITY, MAX_FRAME_SIZE, MAX_PAYLOAD_BYTES,
};
use vstd::prelude::*;

verus! {

/// The text that a frame of a client is refused with, where it is refused.
pub open spec fn refusal(frame: FrameView) -> Option<Seq<u8>> {
    match frame {
        FrameView::Sub { subject, .. } => match subject::subscribed(subject) {
            Err(_) => Some(bytes::ascii("invalid subject")),
            Ok(_) => None,
        },
        FrameView::Unsub { max_msgs, .. } => if max_msgs is Some {
            Some(bytes::ascii("UNSUB max_msgs not supported"))
        } else {
            None
        },
        FrameView::Pub { subject, payload, .. } => if payload.len() > MAX_PAYLOAD_BYTES {
            Some(bytes::ascii("maximum payload exceeded"))
        } else {
            match subject::published(subject) {
                Err(e) => Some(worker::subject_refusal(e)),
                Ok(_) => None,
            }
        },
        FrameView::Msg { .. } | FrameView::Info { .. } | FrameView::Ack | FrameView::Error {
            ..
        } => Some(bytes::ascii("unexpected verb")),
        _ => None,
    }
}

proof fn lemma_refusal_is_short(frame: FrameView)
    ensures
        refusal(frame) matches Some(message) ==> message.len() < 64,
{
    reveal_strlit("invalid subject");
    reveal_strlit("empty subject");
    reveal_strlit("empty token in subject");
    reveal_strlit("wildcard not allowed in publish subject");
    reveal_strlit("`>` must be the last token");
    reveal_strlit("UNSUB max_msgs not supported");
    reveal_strlit("maximum payload exceeded");
    reveal_strlit("unexpected verb");
}

/// Bytes fit into the outbound buffer of a live connection that is not being
/// closed.
pub open spec fn has_room(l: LinksView, id: u32, bytes: Seq<u8>) -> bool {
    &&& l.connections.contains_key(id)
    &&& l.connections[id].closing is None
    &&& l.connections[id].used + bytes.len() <= l.connections[id].capacity
}

/// A refused request is answered with `-ERR` and its reason, and changes
/// nothing else: no subscription comes or goes, and no one else is sent
/// anything. A connection that has room for the answer stays open and has it
/// behind what was pending.
pub proof fn law_refused_request_is_answered(
    w: WorkerView,
    id: u32,
    subs: Map<Seq<u8>, Seq<u8>>,
    frame: FrameView,
)
    requires
        refusal(frame) is Some,
    ensures
        worker::handled(w, id, subs, frame) == (
            WorkerView {
                links: links::sent(
                    w.links,
                    id,
                    emit::encoded(FrameView::Error { message: refusal(frame)->0 }),
                ),
                ..w
            },
            subs,
        ),
        ({
            let answer = emit::encoded(FrameView::Error { message: refusal(frame)->0 });
            let after = worker::handled(w, id, subs, frame).0.links;
            has_room(w.links, id, answer) ==> {
                &&& after.connections[id].pending == w.links.connections[id].pending + answer
                &&& after.connections[id].closing is None
                &&& after.woken == w.links.woken.push(id)
            }
        }),
{
    lemma_refusal_is_short(frame);
    codec::lemma_encoded_len(refusal(frame)->0);
}

/// A `PING` is answered with `PONG`, and changes nothing else.
pub proof fn law_ping_is_answered(w: WorkerView, id: u32, subs: Map<Seq<u8>, Seq<u8>>)
    ensures
        worker::handled(w, id, subs, FrameView::Ping) == (
            WorkerView {
                links: links::sent(w.links, id, emit::encoded(FrameView::Pong)),
                ..w
            },
            subs,
        ),
        has_room(w.links, id, emit::encoded(FrameView::Pong)) ==> worker::handled(
            w,
            id,
            subs,
            FrameView::Ping,
        ).0.links.connections[id].pending == w.links.connections[id].pending + emit::encoded(
            FrameView::Pong,
        ),
{
    codec::lemma_encoded_len(Seq::empty());
}

/// Publishing to a subject that nobody is subscribed to is accepted in
/// silence: nothing changes.
pub proof fn law_publish_without_subscribers(
    w: WorkerView,
    id: u32,
    subject: Seq<u8>,
    reply_to: Option<Seq<u8>>,
    payload: Seq<u8>,
)
    requires
        subject::published(subject) is Ok,
        matching::matched(w.table, subject::tokens(subject)).len() == 0,
    ensures
        worker::published(w, id, subject, reply_to, payload) == w,
{
    let subs = matching::matched(w.table, subject::tokens(subject));
    dispatch::law_one_receiver_per_group(subs, w.random);
    dispatch::lemma_group_names(subs);
    subs.lemma_filter_len(|s: subscription::SubView| s.queue_group is None);
    assert(dispatch::receivers(subs, w.random).len() == 0);
}

/// The messages that one connection is sent when a message goes to the first
/// `k` receivers, one behind the other.
pub open spec fn messages_for(
    to: Seq<Target>,
    k: int,
    conn_id: u32,
    subject: Seq<u8>,
    reply_to: Option<Seq<u8>>,
    payload: Seq<u8>,
) -> Seq<u8>
    decreases k,
{
    if k <= 0 {
        Seq::empty()
    } else {
        let before = messages_for(to, k - 1, conn_id, subject, reply_to, payload);
        let msg = emit::encoded(
            FrameView::Msg { subject, sid: to[k - 1].sid, reply_to, payload },
        );
        if to[k - 1].conn_id == conn_id && msg.len() <= EMIT_SCRATCH_CAPACITY {
            before + msg
        } else {
            before
        }
    }
}

/// A connection that is live, open and has room is sent exactly the messages
/// for its own subscriptions, in order, behind what was pending; a connection
/// that no receiver belongs to is sent nothing.
pub proof fn law_delivery_is_exact(
    l: LinksView,
    to: Seq<Target>,
    k: int,
    conn_id: u32,
    subject: Seq<u8>,
    reply_to: Option<Seq<u8>>,
    payload: Seq<u8>,
)
    requires
        0 <= k <= to.len(),
        l.connections.contains_key(conn_id),
        l.connections[conn_id].closing is None,
        l.connections[conn_id].used + messages_for(
            to,
            k,
            conn_id,
            subject,
            reply_to,
            payload,
        ).len() <= l.connections[conn_id].capacity,
    ensures
        ({
            let before = l.connections[conn_id];
            let after = worker::delivered(l, to, k, subject, reply_to, payload);
            let messages = messages_for(to, k, conn_id, subject, reply_to, payload);
            &&& after.connections.contains_key(conn_id)
            &&& after.connections[conn_id].pending == before.pending + messages
            &&& after.connections[conn_id].used == before.used + messages.len()
            &&& after.connections[conn_id].capacity == before.capacity
            &&& after.connections[conn_id].closing is None
        }),
    decreases k,
{
    let before = l.connections[conn_id];
    if k == 0 {
        assert(before.pending + Seq::<u8>::empty() =~= before.pending);
    } else {
        let t = to[k - 1];
        let msg = emit::encoded(FrameView::Msg { subject, sid: t.sid, reply_to, payload });
        let prior = messages_for(to, k - 1, conn_id, subject, reply_to, payload);
        assert(prior.len() <= messages_for(to, k, conn_id, subject, reply_to, payload).len());
        law_delivery_is_exact(l, to, k - 1, conn_id, subject, reply_to, payload);
        if t.conn_id == conn_id && msg.len() <= EMIT_SCRATCH_CAPACITY {
            assert(before.pending + prior + msg =~= before.pending + (prior + msg));
        }
    }
}

/// A connection that no receiver belongs to is left exactly as it was, and its
/// writer is not woken.
pub proof fn law_others_are_left_alone(
    l: LinksView,
    to: Seq<Target>,
    k: int,
    conn_id: u32,
    subject: Seq<u8>,
    reply_to: Option<Seq<u8>>,
    payload: Seq<u8>,
)
    requires
        0 <= k <= to.len(),
        forall|i: int| 0 <= i < to.len() ==> (#[trigger] to[i]).conn_id != conn_id,
    ensures
        ({
            let after = worker::delivered(l, to, k, subject, reply_to, payload);
            &&& after.connections.contains_key(conn_id) == l.connections.contains_key(conn_id)
            &&& after.connections[conn_id] == l.connections[conn_id]
            &&& l.woken.len() <= after.woken.len()
            &&& after.woken.take(l.woken.len() as int) == l.woken
            &&& forall|i: int|
                l.woken.len() <= i < after.woken.len() ==> (#[trigger] after.woken[i]) != conn_id
        }),
    decreases k,
{
    if k <= 0 {
        assert(l.woken.take(l.woken.len() as int) =~= l.woken);
    } else {
        law_others_are_left_alone(l, to, k - 1, conn_id, subject, reply_to, payload);
        assert(to[k - 1].conn_id != conn_id);
        let before = worker::delivered(l, to, k - 1, subject, reply_to, payload);
        let after = worker::delivered(l, to, k, subject, reply_to, payload);
        assert(after.woken.take(l.woken.len() as int) =~= before.woken.take(l.woken.len() as int));
    }
}

/// A live subscription without a queue group whose pattern matches a published
/// subject is a receiver of the message. That holds for the publisher's own
/// subscriptions too.
pub proof fn law_plain_subscriber_receives(w: WorkerView, i: int, subject: Seq<Seq<u8>>)
    requires
        matching::is_literal(subject),
        0 <= i < w.table.len(),
        w.table[i].sub.queue_group is None,
        subject::pattern_matches(w.table[i].pattern, subject),
    ensures
        dispatch::receivers(matching::matched(w.table, subject), w.random).contains(
            dispatch::target(w.table[i].sub),
        ),
{
    let subs = matching::matched(w.table, subject);
    let s = w.table[i].sub;
    lemma_reached(w.table, i, subject);
    let k = choose|k: int| 0 <= k < subs.len() && subs[k] == s;
    let alone = |x: subscription::SubView| x.queue_group is None;
    subs.lemma_filter_contains(alone, k);
    let plain = subs.filter(alone);
    let m = choose|m: int| 0 <= m < plain.len() && plain[m] == s;
    let all = dispatch::receivers(subs, w.random);
    assert(dispatch::plain_targets(subs)[m] == dispatch::target(s));
    assert(all[m] == dispatch::target(s));
}

/// A subscription whose pattern matches is among those that are matched.
proof fn lemma_reached(log: Seq<Entry>, i: int, subject: Seq<Seq<u8>>)
    requires
        matching::is_literal(subject),
        0 <= i < log.len(),
        subject::pattern_matches(log[i].pattern, subject),
    ensures
        matching::matched(log, subject).contains(log[i].sub),
{
    broadcast use vstd::seq_lib::group_to_multiset_ensures;

    let keep = |e: Entry| subject::pattern_matches(e.pattern, subject);
    log.lemma_filter_contains(keep, i);
    let kept = log.filter(keep);
    let k = choose|k: int| 0 <= k < kept.len() && kept[k] == log[i];
    let m = matching::matching(log, subject);
    assert(m[k] == log[i].sub);
    assert(m.contains(log[i].sub));
    matching::law_match_is_exact(log, subject);
    assert(m.to_multiset().count(log[i].sub) > 0);
    assert(matching::matched(log, subject).to_multiset().count(log[i].sub) > 0);
}

/// The messages for a connection hold the one for each of its receivers.
proof fn lemma_messages_hold(
    to: Seq<Target>,
    k: int,
    m: int,
    subject: Seq<u8>,
    reply_to: Option<Seq<u8>>,
    payload: Seq<u8>,
) -> (at: int)
    requires
        0 <= m < k <= to.len(),
        emit::encoded(FrameView::Msg { subject, sid: to[m].sid, reply_to, payload }).len()
            <= EMIT_SCRATCH_CAPACITY,
    ensures
        ({
            let msg = emit::encoded(FrameView::Msg { subject, sid: to[m].sid, reply_to, payload });
            let all = messages_for(to, k, to[m].conn_id, subject, reply_to, payload);
            &&& 0 <= at
            &&& at + msg.len() <= all.len()
            &&& all.subrange(at, at + msg.len()) == msg
        }),
    decreases k,
{
    let id = to[m].conn_id;
    let msg = emit::encoded(FrameView::Msg { subject, sid: to[m].sid, reply_to, payload });
    let before = messages_for(to, k - 1, id, subject, reply_to, payload);
    let all = messages_for(to, k, id, subject, reply_to, payload);
    if m == k - 1 {
        assert(all.subrange(before.len() as int, (before.len() + msg.len()) as int) =~= msg);
        before.len() as int
    } else {
        let at = lemma_messages_hold(to, k - 1, m, subject, reply_to, payload);
        assert(all.subrange(at, at + msg.len()) =~= before.subrange(at, at + msg.len()));
        at
    }
}

/// The receivers of a message that is published to `subject`.
pub open spec fn receivers_of(w: WorkerView, subject: Seq<u8>) -> Seq<Target> {
    dispatch::receivers(matching::matched(w.table, subject::tokens(subject)), w.random)
}

/// A message can be delivered to a receiver: it fits the buffer that messages
/// are encoded in, and the receiver's connection is open and has room for the
/// messages that it is owed.
pub open spec fn deliverable(
    w: WorkerView,
    t: Target,
    subject: Seq<u8>,
    reply_to: Option<Seq<u8>>,
    payload: Seq<u8>,
) -> bool {
    let to = receivers_of(w, subject);
    &&& emit::encoded(FrameView::Msg { subject, sid: t.sid, reply_to, payload }).len()
        <= EMIT_SCRATCH_CAPACITY
    &&& has_room(
        w.links,
        t.conn_id,
        messages_for(to, to.len() as int, t.conn_id, subject, reply_to, payload),
    )
}

/// `after` is `before` with more bytes behind it, `msg` among them.
pub open spec fn gained(before: Seq<u8>, after: Seq<u8>, msg: Seq<u8>) -> bool {
    &&& before.is_prefix_of(after)
    &&& exists|at: int|
        before.len() <= at && at + msg.len() <= after.len() && #[trigger] after.subrange(
            at,
            at + msg.len(),
        ) == msg
}

/// What is published arrives: every receiver that it can be delivered to, be
/// it without a queue group or picked from one, has the message, encoded under
/// its `sid`, in the outbound buffer of its connection, behind what was
/// pending there.
pub proof fn law_receivers_have_the_message(
    w: WorkerView,
    id: u32,
    m: int,
    subject: Seq<u8>,
    reply_to: Option<Seq<u8>>,
    payload: Seq<u8>,
)
    requires
        subject::published(subject) is Ok,
        0 <= m < receivers_of(w, subject).len(),
        deliverable(w, receivers_of(w, subject)[m], subject, reply_to, payload),
    ensures
        ({
            let t = receivers_of(w, subject)[m];
            let after = worker::published(w, id, subject, reply_to, payload);
            gained(
                w.links.connections[t.conn_id].pending,
                after.links.connections[t.conn_id].pending,
                emit::encoded(FrameView::Msg { subject, sid: t.sid, reply_to, payload }),
            )
        }),
{
    let to = receivers_of(w, subject);
    let t = to[m];
    let msg = emit::encoded(FrameView::Msg { subject, sid: t.sid, reply_to, payload });
    let n = to.len() as int;
    let at = lemma_messages_hold(to, n, m, subject, reply_to, payload);
    law_delivery_is_exact(w.links, to, n, t.conn_id, subject, reply_to, payload);
    let before = w.links.connections[t.conn_id].pending;
    let messages = messages_for(to, n, t.conn_id, subject, reply_to, payload);
    let after = before + messages;
    assert(after.take(before.len() as int) =~= before);
    let place = before.len() + at;
    assert(after.subrange(place, place + msg.len()) =~= messages.subrange(at, at + msg.len()));
}

/// A live subscription without a queue group gets every message whose subject
/// its pattern matches, as far as it can be delivered.
pub proof fn law_subscribers_get_the_message(
    w: WorkerView,
    id: u32,
    i: int,
    subject: Seq<u8>,
    reply_to: Option<Seq<u8>>,
    payload: Seq<u8>,
)
    requires
        subject::published(subject) is Ok,
        0 <= i < w.table.len(),
        w.table[i].sub.queue_group is None,
        subject::pattern_matches(w.table[i].pattern, subject::tokens(subject)),
        deliverable(w, dispatch::target(w.table[i].sub), subject, reply_to, payload),
    ensures
        ({
            let s = w.table[i].sub;
            let after = worker::published(w, id, subject, reply_to, payload);
            gained(
                w.links.connections[s.conn_id].pending,
                after.links.connections[s.conn_id].pending,
                emit::encoded(FrameView::Msg { subject, sid: s.sid, reply_to, payload }),
            )
        }),
{
    let tokens = subject::tokens(subject);
    subject::lemma_publish_fault(tokens);
    law_plain_subscriber_receives(w, i, tokens);
    let to = receivers_of(w, subject);
    let m = choose|m: int| 0 <= m < to.len() && to[m] == dispatch::target(w.table[i].sub);
    law_receivers_have_the_message(w, id, m, subject, reply_to, payload);
}

/// Whoever receives a message has a live subscription whose pattern matches
/// its subject.
pub proof fn law_receivers_are_subscribed(w: WorkerView, subject: Seq<Seq<u8>>, k: int)
    requires
        matching::is_literal(subject),
        0 <= k < dispatch::receivers(matching::matched(w.table, subject), w.random).len(),
    ensures
        exists|i: int|
            0 <= i < w.table.len() && subject::pattern_matches(
                (#[trigger] w.table[i]).pattern,
                subject,
            ) && dispatch::target(w.table[i].sub) == dispatch::receivers(
                matching::matched(w.table, subject),
                w.random,
            )[k],
{
    broadcast use vstd::seq_lib::group_to_multiset_ensures;

    let subs = matching::matched(w.table, subject);
    let all = dispatch::receivers(subs, w.random);
    let n = dispatch::plain_targets(subs).len();
    dispatch::law_one_receiver_per_group(subs, w.random);
    let names = dispatch::group_names(subs);
    let pred: spec_fn(subscription::SubView) -> bool = if k < n {
        |s: subscription::SubView| s.queue_group is None
    } else {
        |s: subscription::SubView| s.queue_group == Some(names[k - n])
    };
    let chosen = subs.filter(pred);
    let said = chosen.map_values(|s: subscription::SubView| dispatch::target(s));
    assert(said.contains(all[k])) by {
        if k < n {
            assert(said == dispatch::plain_targets(subs));
            assert(said[k] == all[k]);
        } else {
            assert(said == dispatch::members(subs, names[k - n]));
            assert(all[n + (k - n)] == all[k]);
        }
    }
    let m = choose|m: int| 0 <= m < said.len() && said[m] == all[k];
    let s = chosen[m];
    lemma_filtered_from(subs, pred, m);
    assert(subs.contains(s));
    matching::law_match_is_exact(w.table, subject);
    let matching_subs = matching::matching(w.table, subject);
    assert(subs.to_multiset().count(s) > 0);
    assert(matching_subs.contains(s));
    let keep = |e: Entry| subject::pattern_matches(e.pattern, subject);
    let kept = w.table.filter(keep);
    let q = choose|q: int| 0 <= q < matching_subs.len() && matching_subs[q] == s;
    assert(kept[q].sub == s);
    w.table.lemma_filter_pred(keep, q);
    lemma_entry_from(w.table, keep, q);
    let i = choose|i: int| 0 <= i < w.table.len() && w.table[i] == kept[q];
    assert(w.table[i].sub == s);
}

proof fn lemma_filtered_from(
    list: Seq<subscription::SubView>,
    pred: spec_fn(subscription::SubView) -> bool,
    m: int,
)
    requires
        0 <= m < list.filter(pred).len(),
    ensures
        list.contains(list.filter(pred)[m]),
    decreases list.len(),
{
    reveal(Seq::filter);
    let init = list.drop_last();
    let x = list.filter(pred)[m];
    if m < init.filter(pred).len() {
        lemma_filtered_from(init, pred, m);
        let i = choose|i: int| 0 <= i < init.len() && init[i] == x;
        assert(list[i] == x);
    } else {
        assert(list[list.len() - 1] == x);
    }
}

proof fn lemma_entry_from(log: Seq<Entry>, pred: spec_fn(Entry) -> bool, m: int)
    requires
        0 <= m < log.filter(pred).len(),
    ensures
        log.contains(log.filter(pred)[m]),
    decreases log.len(),
{
    reveal(Seq::filter);
    let init = log.drop_last();
    let x = log.filter(pred)[m];
    if m < init.filter(pred).len() {
        lemma_entry_from(init, pred, m);
        let i = choose|i: int| 0 <= i < init.len() && init[i] == x;
        assert(log[i] == x);
    } else {
        assert(log[log.len() - 1] == x);
    }
}

/// When a connection leaves, whatever frames it has sent, none of its
/// subscriptions stays behind, it is live no more, and the subscriptions and
/// the state of every other connection are as they were.
pub proof fn law_disconnect_leaves_nothing_behind(w: WorkerView, id: u32, other: u32)
    ensures
        ({
            let after = worker::left(w, id);
            &&& forall|i: int|
                0 <= i < after.table.len() ==> (#[trigger] after.table[i]).sub.conn_id != id
            &&& !after.links.connections.contains_key(id)
            &&& other != id ==> {
                &&& after.table.filter(|e: Entry| e.sub.conn_id == other) == w.table.filter(
                    |e: Entry| e.sub.conn_id == other,
                )
                &&& after.links.connections.contains_key(other)
                    == w.links.connections.contains_key(other)
                &&& after.links.connections[other] == w.links.connections[other]
            }
        }),
{
    let keep = |e: Entry| e.sub.conn_id != id;
    let theirs = |e: Entry| e.sub.conn_id == other;
    let after = worker::left(w, id);
    assert forall|i: int| 0 <= i < after.table.len() implies (#[trigger] after.table[i]).sub.conn_id
        != id by {
        w.table.lemma_filter_pred(keep, i);
    }
    if other != id {
        lemma_filter_within(w.table, keep, theirs);
    }
}

/// Filtering by what implies the filter before is filtering once.
proof fn lemma_filter_within(
    log: Seq<Entry>,
    a: spec_fn(Entry) -> bool,
    b: spec_fn(Entry) -> bool,
)
    requires
        forall|e: Entry| #[trigger] b(e) ==> a(e),
    ensures
        log.filter(a).filter(b) == log.filter(b),
    decreases log.len(),
{
    reveal(Seq::filter);
    if log.len() > 0 {
        let init = log.drop_last();
        let e = log.last();
        lemma_filter_within(init, a, b);
        if a(e) {
            assert(init.filter(a).push(e).drop_last() =~= init.filter(a));
        }
    }
}

/// Nothing that is published reaches a connection that has left.
pub proof fn law_the_departed_receive_nothing(w: WorkerView, id: u32, subject: Seq<Seq<u8>>, k: int)
    requires
        matching::is_literal(subject),
        0 <= k < dispatch::receivers(
            matching::matched(worker::left(w, id).table, subject),
            w.random,
        ).len(),
    ensures
        dispatch::receivers(
            matching::matched(worker::left(w, id).table, subject),
            w.random,
        )[k].conn_id != id,
{
    let after = worker::left(w, id);
    law_receivers_are_subscribed(after, subject, k);
    law_disconnect_leaves_nothing_behind(w, id, id);
}

/// The first `k` of the chunks that are read from connection `id` have been
/// taken in, one read after the other.
pub open spec fn taken_in(p: Progress, id: u32, chunks: Seq<Seq<u8>>, k: int) -> Progress
    decreases k,
{
    if k <= 0 {
        p
    } else {
        worker::received(taken_in(p, id, chunks, k - 1), id, chunks[k - 1])
    }
}

/// Every read keeps within what a connection may send without completing a
/// frame.
pub open spec fn reads_fit(p: Progress, id: u32, chunks: Seq<Seq<u8>>) -> bool {
    forall|k: int|
        0 <= k < chunks.len() ==> (#[trigger] taken_in(p, id, chunks, k)).accum.len()
            + chunks[k].len() <= MAX_FRAME_SIZE
}

/// How the bytes of a client are cut into reads does not matter: taking them
/// in chunk by chunk is acting on all of them at once, as long as every read
/// keeps within what a connection may send without completing a frame and the
/// connection is not closed before the last.
pub proof fn law_reads_can_be_cut(p: Progress, id: u32, chunks: Seq<Seq<u8>>)
    requires
        p.worker.links.connections.contains_key(id),
        chunks.len() > 0,
        reads_fit(p, id, chunks),
        forall|k: int|
            0 < k < chunks.len() ==> !worker::is_closing(
                (#[trigger] taken_in(p, id, chunks, k)).worker,
                id,
            ),
    ensures
        taken_in(p, id, chunks, chunks.len() as int) == worker::processed(
            Progress { accum: p.accum + emit::joined(chunks, chunks.len() as int), ..p },
            id,
        ),
        p.accum.len() + emit::joined(chunks, chunks.len() as int).len() <= MAX_FRAME_SIZE
            ==> taken_in(p, id, chunks, chunks.len() as int) == worker::received(
            p,
            id,
            emit::joined(chunks, chunks.len() as int),
        ),
{
    lemma_taken_in(p, id, chunks, chunks.len() as int);
}

proof fn lemma_taken_in(p: Progress, id: u32, chunks: Seq<Seq<u8>>, k: int)
    requires
        p.worker.links.connections.contains_key(id),
        0 < k <= chunks.len(),
        reads_fit(p, id, chunks),
        forall|j: int|
            0 < j < k ==> !worker::is_closing(
                (#[trigger] taken_in(p, id, chunks, j)).worker,
                id,
            ),
    ensures
        taken_in(p, id, chunks, k) == worker::processed(
            Progress { accum: p.accum + emit::joined(chunks, k), ..p },
            id,
        ),
    decreases k,
{
    let before = taken_in(p, id, chunks, k - 1);
    assert(before.accum.len() + chunks[k - 1].len() <= MAX_FRAME_SIZE);
    assert(p.accum + emit::joined(chunks, k) =~= p.accum + emit::joined(chunks, k - 1)
        + chunks[k - 1]);
    if k == 1 {
        assert(p.accum + emit::joined(chunks, 0) =~= p.accum);
    } else {
        lemma_taken_in(p, id, chunks, k - 1);
        lemma_processed_in_two(
            Progress { accum: p.accum + emit::joined(chunks, k - 1), ..p },
            id,
            chunks[k - 1],
        );
    }
}

/// Frames on the wire, one behind the other.
pub open spec fn stream(frames: Seq<FrameView>) -> Seq<u8>
    decreases frames.len(),
{
    if frames.len() == 0 {
        Seq::empty()
    } else {
        emit::encoded(frames[0]) + stream(frames.skip(1))
    }
}

/// Frames of connection `id` are acted on, each once, in their order.
pub open spec fn acted_on(
    w: WorkerView,
    id: u32,
    subs: Map<Seq<u8>, Seq<u8>>,
    frames: Seq<FrameView>,
) -> (WorkerView, Map<Seq<u8>, Seq<u8>>)
    decreases frames.len(),
{
    if frames.len() == 0 {
        (w, subs)
    } else {
        let (v, s) = worker::handled(w, id, subs, frames[0]);
        acted_on(v, id, s, frames.skip(1))
    }
}

/// Connection `id` is not closed, neither before the frames are acted on nor
/// by any of them.
pub open spec fn stays_open(
    w: WorkerView,
    id: u32,
    subs: Map<Seq<u8>, Seq<u8>>,
    frames: Seq<FrameView>,
) -> bool
    decreases frames.len(),
{
    &&& !worker::is_closing(w, id)
    &&& frames.len() > 0 ==> {
        let (v, s) = worker::handled(w, id, subs, frames[0]);
        stays_open(v, id, s, frames.skip(1))
    }
}

/// Frames that the protocol can carry, none longer than `most` bytes.
pub open spec fn sendable(frames: Seq<FrameView>, most: nat) -> bool {
    forall|i: int|
        0 <= i < frames.len() ==> codec::legal(#[trigger] frames[i]) && emit::encoded(
            frames[i],
        ).len() <= most
}

proof fn lemma_rest_is_sendable(frames: Seq<FrameView>, most: nat)
    requires
        frames.len() > 0,
        sendable(frames, most),
    ensures
        sendable(frames.skip(1), most),
{
    assert forall|i: int| 0 <= i < frames.skip(1).len() implies codec::legal(
        #[trigger] frames.skip(1)[i],
    ) && emit::encoded(frames.skip(1)[i]).len() <= most by {
        assert(frames.skip(1)[i] == frames[i + 1]);
    }
}

/// Where `p.accum` starts with a frame that leaves the connection open, acting
/// on it is acting on that frame and then on the rest.
proof fn lemma_frame_then_rest(p: Progress, id: u32, frame: FrameView, tail: Seq<u8>)
    requires
        codec::legal(frame),
        emit::encoded(frame).len() <= usize::MAX,
        p.accum == emit::encoded(frame) + tail,
        !worker::is_closing(worker::handled(p.worker, id, p.subs, frame).0, id),
    ensures
        worker::processed(p, id) == worker::processed(
            Progress {
                worker: worker::handled(p.worker, id, p.subs, frame).0,
                subs: worker::handled(p.worker, id, p.subs, frame).1,
                accum: tail,
            },
            id,
        ),
{
    codec::law_parse_undoes_emit(frame, tail);
    assert(p.accum.skip(emit::encoded(frame).len() as int) =~= tail);
}

/// Of the first `cut` bytes of a stream of frames, the complete ones are acted
/// on, and less than one frame is left over.
proof fn lemma_part_of_stream(
    w: WorkerView,
    id: u32,
    subs: Map<Seq<u8>, Seq<u8>>,
    frames: Seq<FrameView>,
    cut: int,
    most: nat,
)
    requires
        sendable(frames, most),
        most <= usize::MAX,
        stays_open(w, id, subs, frames),
        0 <= cut <= stream(frames).len(),
    ensures
        ({
            let q = worker::processed(
                Progress { worker: w, subs, accum: stream(frames).take(cut) },
                id,
            );
            &&& !worker::is_closing(q.worker, id)
            &&& q.accum.len() <= most
            &&& cut == stream(frames).len() ==> q == (Progress {
                worker: acted_on(w, id, subs, frames).0,
                subs: acted_on(w, id, subs, frames).1,
                accum: Seq::empty(),
            })
        }),
    decreases frames.len(),
{
    let all = stream(frames);
    let part = all.take(cut);
    if frames.len() == 0 {
        assert(part =~= Seq::<u8>::empty());
        codec::lemma_encoded_len(Seq::empty());
        codec::law_prefix_needs_more(FrameView::Pong, 0);
        assert(emit::encoded(FrameView::Pong).take(0) =~= part);
    } else {
        let code = emit::encoded(frames[0]);
        let rest = stream(frames.skip(1));
        if cut < code.len() {
            assert(part =~= code.take(cut));
            codec::law_prefix_needs_more(frames[0], cut);
        } else {
            let tail = rest.take(cut - code.len());
            assert(part =~= code + tail);
            let (v, s) = worker::handled(w, id, subs, frames[0]);
            assert(stays_open(v, id, s, frames.skip(1)));
            lemma_rest_is_sendable(frames, most);
            lemma_frame_then_rest(Progress { worker: w, subs, accum: part }, id, frames[0], tail);
            lemma_part_of_stream(v, id, s, frames.skip(1), cut - code.len(), most);
        }
    }
}

/// The effect of what a client sends depends on its frames alone, not on how
/// their bytes are cut into reads: however the bytes of some frames come in,
/// the frames are acted on once each, in their order, and nothing is left
/// over. No read may exceed what a connection may send without completing a
/// frame, and the connection is not closed meanwhile.
pub proof fn law_frames_arrive_however_cut(
    w: WorkerView,
    id: u32,
    subs: Map<Seq<u8>, Seq<u8>>,
    chunks: Seq<Seq<u8>>,
    frames: Seq<FrameView>,
)
    requires
        w.links.connections.contains_key(id),
        emit::joined(chunks, chunks.len() as int) == stream(frames),
        sendable(frames, usize::MAX as nat),
        stays_open(w, id, subs, frames),
        reads_fit(Progress { worker: w, subs, accum: Seq::empty() }, id, chunks),
    ensures
        taken_in(
            Progress { worker: w, subs, accum: Seq::empty() },
            id,
            chunks,
            chunks.len() as int,
        ) == (Progress {
            worker: acted_on(w, id, subs, frames).0,
            subs: acted_on(w, id, subs, frames).1,
            accum: Seq::empty(),
        }),
{
    let p = Progress { worker: w, subs, accum: Seq::empty() };
    let n = chunks.len() as int;
    if n == 0 {
        if frames.len() > 0 {
            codec::law_parse_undoes_emit(frames[0], Seq::empty());
            codec::law_consumed_is_within(emit::encoded(frames[0]) + Seq::<u8>::empty());
        }
    } else {
        lemma_open_between(p, id, chunks, frames, n - 1, usize::MAX as nat);
        law_reads_can_be_cut(p, id, chunks);
        assert(p.accum + stream(frames) =~= stream(frames).take(stream(frames).len() as int));
        lemma_part_of_stream(w, id, subs, frames, stream(frames).len() as int, usize::MAX as nat);
    }
}

/// The first `k` reads do not close the connection and leave less than a frame
/// over.
proof fn lemma_open_between(
    p: Progress,
    id: u32,
    chunks: Seq<Seq<u8>>,
    frames: Seq<FrameView>,
    k: int,
    most: nat,
)
    requires
        p.worker.links.connections.contains_key(id),
        p.accum.len() == 0,
        0 <= k <= chunks.len(),
        emit::joined(chunks, chunks.len() as int) == stream(frames),
        sendable(frames, most),
        most <= usize::MAX,
        stays_open(p.worker, id, p.subs, frames),
        forall|j: int|
            0 <= j < k ==> (#[trigger] taken_in(p, id, chunks, j)).accum.len() <= most
                ==> taken_in(p, id, chunks, j).accum.len() + chunks[j].len() <= MAX_FRAME_SIZE,
    ensures
        forall|j: int|
            0 <= j <= k ==> !worker::is_closing((#[trigger] taken_in(p, id, chunks, j)).worker, id)
                && taken_in(p, id, chunks, j).accum.len() <= most,
    decreases k,
{
    if k > 0 {
        lemma_open_between(p, id, chunks, frames, k - 1, most);
        let front = chunks.take(k);
        assert forall|j: int| 0 <= j <= k implies #[trigger] taken_in(p, id, front, j) == taken_in(
            p,
            id,
            chunks,
            j,
        ) by {
            lemma_taken_in_same(p, id, chunks, front, j);
        }
        assert(reads_fit(p, id, front));
        lemma_taken_in(p, id, front, k);
        lemma_joined_same(chunks, front, k);
        lemma_joined_grows(chunks, k);
        let cut = emit::joined(chunks, k).len() as int;
        assert(p.accum + emit::joined(front, k) =~= stream(frames).take(cut));
        lemma_part_of_stream(p.worker, id, p.subs, frames, cut, most);
    }
}

proof fn lemma_taken_in_same(
    p: Progress,
    id: u32,
    chunks: Seq<Seq<u8>>,
    front: Seq<Seq<u8>>,
    j: int,
)
    requires
        front.len() <= chunks.len(),
        front == chunks.take(front.len() as int),
        0 <= j <= front.len(),
    ensures
        taken_in(p, id, front, j) == taken_in(p, id, chunks, j),
    decreases j,
{
    if j > 0 {
        lemma_taken_in_same(p, id, chunks, front, j - 1);
    }
}

proof fn lemma_joined_same(chunks: Seq<Seq<u8>>, front: Seq<Seq<u8>>, j: int)
    requires
        front.len() <= chunks.len(),
        front == chunks.take(front.len() as int),
        0 <= j <= front.len(),
    ensures
        emit::joined(front, j) == emit::joined(chunks, j),
    decreases j,
{
    if j > 0 {
        lemma_joined_same(chunks, front, j - 1);
    }
}

/// The first `k` chunks are the head of all of them.
proof fn lemma_joined_grows(chunks: Seq<Seq<u8>>, k: int)
    requires
        0 <= k <= chunks.len(),
    ensures
        ({
            let all = emit::joined(chunks, chunks.len() as int);
            let head = emit::joined(chunks, k);
            head.len() <= all.len() && head == all.take(head.len() as int)
        }),
    decreases chunks.len() - k,
{
    let all = emit::joined(chunks, chunks.len() as int);
    let head = emit::joined(chunks, k);
    if k < chunks.len() {
        lemma_joined_grows(chunks, k + 1);
        let more = emit::joined(chunks, k + 1);
        assert(head =~= more.take(head.len() as int));
        assert(head =~= all.take(head.len() as int));
    } else {
        assert(head =~= all.take(head.len() as int));
    }
}

/// Reads of moderate size always fit: where no frame is longer than `most`
/// bytes and no read brings more than the rest of what a connection may send
/// without completing a frame, the frames arrive however they are cut.
pub proof fn law_moderate_reads_fit(
    w: WorkerView,
    id: u32,
    subs: Map<Seq<u8>, Seq<u8>>,
    chunks: Seq<Seq<u8>>,
    frames: Seq<FrameView>,
    most: nat,
)
    requires
        w.links.connections.contains_key(id),
        emit::joined(chunks, chunks.len() as int) == stream(frames),
        sendable(frames, most),
        stays_open(w, id, subs, frames),
        most <= MAX_FRAME_SIZE,
        forall|k: int|
            0 <= k < chunks.len() ==> most + (#[trigger] chunks[k]).len() <= MAX_FRAME_SIZE,
    ensures
        reads_fit(Progress { worker: w, subs, accum: Seq::empty() }, id, chunks),
{
    let p = Progress { worker: w, subs, accum: Seq::empty() };
    lemma_open_between(p, id, chunks, frames, chunks.len() as int, most);
}

/// A whole session: a connection is taken in and greeted, sends some frames,
/// cut into reads however they may be, and ends without having been closed.
/// The greeting is the first thing that it is sent. Then its frames are acted
/// on, once each, in their order. At the end it is closed because the peer
/// closed, and it and its subscriptions are gone.
pub proof fn law_session(
    w: WorkerView,
    id: u32,
    chunks: Seq<Seq<u8>>,
    frames: Seq<FrameView>,
    most: nat,
)
    requires
        emit::joined(chunks, chunks.len() as int) == stream(frames),
        sendable(frames, most),
        most <= MAX_FRAME_SIZE,
        forall|k: int|
            0 <= k < chunks.len() ==> most + (#[trigger] chunks[k]).len() <= MAX_FRAME_SIZE,
        stays_open(worker::greeted(worker::accepted(w, id), id), id, Map::empty(), frames),
    ensures
        ({
            let start = worker::greeted(worker::accepted(w, id), id);
            let p = Progress { worker: start, subs: Map::empty(), accum: Seq::empty() };
            let end = taken_in(p, id, chunks, chunks.len() as int).worker;
            &&& start.links.connections[id].pending == emit::encoded(
                FrameView::Info { options: worker::server_info() },
            )
            &&& end == acted_on(start, id, Map::empty(), frames).0
            &&& end.links.connections.contains_key(id)
            &&& connection_state::closed(
                end.links.connections[id],
                CloseReason::PeerClosed,
            ).closing == Some(CloseReason::PeerClosed)
            &&& !worker::left(end, id).links.connections.contains_key(id)
        }),
{
    let start = worker::greeted(worker::accepted(w, id), id);
    worker::lemma_greeting_fits(w, id);
    law_moderate_reads_fit(start, id, Map::empty(), chunks, frames, most);
    law_frames_arrive_however_cut(start, id, Map::empty(), chunks, frames);
    lemma_open_at_the_end(start, id, Map::empty(), frames);
}

proof fn lemma_open_at_the_end(
    w: WorkerView,
    id: u32,
    subs: Map<Seq<u8>, Seq<u8>>,
    frames: Seq<FrameView>,
)
    requires
        stays_open(w, id, subs, frames),
    ensures
        !worker::is_closing(acted_on(w, id, subs, frames).0, id),
        acted_on(w, id, subs, frames).0.links.connections.dom() == w.links.connections.dom(),
    decreases frames.len(),
{
    if frames.len() > 0 {
        worker::lemma_handled_keeps(w, id, subs, frames[0]);
        let (v, s) = worker::handled(w, id, subs, frames[0]);
        lemma_open_at_the_end(v, id, s, frames.skip(1));
    }
}

/// Acting on some bytes and then on more is acting on all of them.
proof fn lemma_processed_in_two(p: Progress, id: u32, more: Seq<u8>)
    requires
        p.worker.links.connections.contains_key(id),
        !worker::is_closing(worker::processed(p, id).worker, id),
    ensures
        ({
            let q = worker::processed(p, id);
            worker::processed(Progress { accum: q.accum + more, ..q }, id) == worker::processed(
                Progress { accum: p.accum + more, ..p },
                id,
            )
        }),
    decreases p.accum.len(),
{
    codec::law_consumed_is_within(p.accum);
    match grammar::parsed(p.accum) {
        OutcomeView::NeedMore => {},
        OutcomeView::Error(_) => {
            assert(worker::is_closing(worker::protocol_error(p.worker, id), id));
        },
        OutcomeView::Frame { frame, consumed } => {
            codec::law_outcome_is_stable(p.accum, more);
            worker::lemma_handled_keeps(p.worker, id, p.subs, frame);
            let (w, subs) = worker::handled(p.worker, id, p.subs, frame);
            let next = Progress { worker: w, subs, accum: p.accum.skip(consumed) };
            assert((p.accum + more).skip(consumed) =~= next.accum + more);
            lemma_processed_in_two(next, id, more);
        },
    }
}

/// A client that sends too much without completing a frame, or that sends a
/// malformed one, is cut off for a protocol error, unless it was being closed
/// already. Nothing else changes.
pub proof fn law_protocol_errors_close(p: Progress, id: u32, bytes: Seq<u8>)
    requires
        p.worker.links.connections.contains_key(id),
        (p.accum + bytes).len() > MAX_FRAME_SIZE || grammar::parsed(p.accum + bytes) is Error,
    ensures
        ({
            let q = worker::received(p, id, bytes);
            let before = p.worker.links.connections[id];
            let after = q.worker.links.connections[id];
            &&& worker::is_closing(q.worker, id)
            &&& after.pending == before.pending
            &&& before.closing is None ==> after.closing == Some(CloseReason::ProtocolError)
            &&& before.closing is Some ==> after.closing == before.closing
            &&& q.worker.table == p.worker.table
            &&& q.subs == p.subs
            &&& forall|other: u32| #![trigger q.worker.links.connections[other]]
                other != id ==> q.worker.links.connections[other]
                    == p.worker.links.connections[other]
        }),
{
}

/// A subscriber whose buffer has no room for a message is cut off as a slow
/// consumer: it keeps what is pending, its writer is woken, and no one else is
/// affected.
pub proof fn law_slow_consumer_is_cut_off(l: LinksView, id: u32, bytes: Seq<u8>, other: u32)
    requires
        l.connections.contains_key(id),
        l.connections[id].closing is None,
        l.connections[id].used + bytes.len() > l.connections[id].capacity,
    ensures
        links::sent(l, id, bytes).connections[id].closing == Some(CloseReason::SlowConsumer),
        links::sent(l, id, bytes).connections[id].pending == l.connections[id].pending,
        links::sent(l, id, bytes).woken == l.woken.push(id),
        other != id ==> links::sent(l, id, bytes).connections[other] == l.connections[other],
{
}

/// A `SUB` to a subject that can be subscribed to makes one subscription: one
/// entry more at the end of the table, under the tokens of the subject, with
/// the connection, the `sid` and the queue group of the frame, whatever they
/// are. The `sid` then stands for the subject. Nothing else changes.
pub proof fn law_sub_makes_one_subscription(
    w: WorkerView,
    id: u32,
    subs: Map<Seq<u8>, Seq<u8>>,
    subject: Seq<u8>,
    queue_group: Option<Seq<u8>>,
    sid: Seq<u8>,
)
    requires
        subject::subscribed(subject) is Ok,
    ensures
        ({
            let (v, s) = worker::handled(
                w,
                id,
                subs,
                FrameView::Sub { subject, queue_group, sid },
            );
            &&& v.table.len() == w.table.len() + 1
            &&& v.table.take(w.table.len() as int) == w.table
            &&& v.table.last().pattern == subject::tokens(subject)
            &&& v.table.last().sub.conn_id == id
            &&& v.table.last().sub.sid == sid
            &&& v.table.last().sub.queue_group == queue_group
            &&& v.links == w.links
            &&& v.next_conn_id == w.next_conn_id
            &&& v.random == w.random
            &&& s.contains_key(sid) && s[sid] == subject
            &&& s.remove(sid) == subs.remove(sid)
        }),
{
    let (v, s) = worker::handled(w, id, subs, FrameView::Sub { subject, queue_group, sid });
    assert(v.table.take(w.table.len() as int) =~= w.table);
    assert(s.remove(sid) =~= subs.remove(sid));
}

/// `e` is a subscription of connection `id` with this `sid`.
pub open spec fn is_of(e: Entry, id: u32, sid: Seq<u8>) -> bool {
    e.sub.conn_id == id && e.sub.sid == sid
}

/// An `UNSUB` takes away at most one subscription, and only one of the
/// connection that sent it, with the `sid` that it names. All others stay, in
/// their order. The `sid` stands for nothing any more; no one is sent
/// anything.
pub proof fn law_unsub_touches_nothing_else(
    w: WorkerView,
    id: u32,
    subs: Map<Seq<u8>, Seq<u8>>,
    sid: Seq<u8>,
)
    ensures
        ({
            let (v, s) = worker::handled(w, id, subs, FrameView::Unsub { sid, max_msgs: None });
            &&& v.table == w.table || exists|i: int|
                0 <= i < w.table.len() && is_of(#[trigger] w.table[i], id, sid) && v.table
                    == w.table.remove(i)
            &&& !subs.contains_key(sid) ==> v.table == w.table
            &&& s == subs.remove(sid)
            &&& v.links == w.links
            &&& v.next_conn_id == w.next_conn_id
            &&& v.random == w.random
        }),
{
    let (v, s) = worker::handled(w, id, subs, FrameView::Unsub { sid, max_msgs: None });
    if subs.contains_key(sid) {
        if let Ok(pattern) = subject::subscribed(subs[sid]) {
            matching::law_unsubscribe_removes_one(w.table, pattern, id, sid);
            if matching::has_entry(w.table, pattern, id, sid) {
                let i = choose|i: int|
                    0 <= i < w.table.len() && matching::is_entry(
                        #[trigger] w.table[i],
                        pattern,
                        id,
                        sid,
                    ) && matching::without(w.table, pattern, id, sid) == w.table.remove(i);
                assert(is_of(w.table[i], id, sid));
                assert(v.table == w.table.remove(i));
            }
        }
    } else {
        assert(subs.remove(sid) =~= subs);
    }
}

/// An `UNSUB` ends a subscription: of the subject that the `sid` stands for
/// one subscription of the connection with that `sid` is gone, the oldest.
pub proof fn law_unsub_ends_a_subscription(
    w: WorkerView,
    id: u32,
    subs: Map<Seq<u8>, Seq<u8>>,
    sid: Seq<u8>,
    i: int,
)
    requires
        subs.contains_key(sid),
        subject::subscribed(subs[sid]) is Ok,
        0 <= i < w.table.len(),
        is_of(w.table[i], id, sid),
        w.table[i].pattern == subject::tokens(subs[sid]),
        forall|j: int|
            0 <= j < i ==> !(is_of(#[trigger] w.table[j], id, sid) && w.table[j].pattern
                == subject::tokens(subs[sid])),
    ensures
        worker::handled(w, id, subs, FrameView::Unsub { sid, max_msgs: None }).0.table
            == w.table.remove(i),
{
    let pattern = subject::tokens(subs[sid]);
    let hit = |e: Entry| matching::is_entry(e, pattern, id, sid);
    assert forall|j: int| 0 <= j < i implies !hit(#[trigger] w.table[j]) by {
        assert(!(is_of(w.table[j], id, sid) && w.table[j].pattern == pattern));
    }
    assert(hit(w.table[i]));
    matching::lemma_less_first(w.table, hit, i);
}

/// What an accepted `SUB` under a fresh `sid` made, with a queue group or
/// without, an `UNSUB` of that `sid` takes back: no subscription of the
/// connection has the `sid` any more, and everything else is as it was.
pub proof fn law_unsub_undoes_sub(
    w: WorkerView,
    id: u32,
    subs: Map<Seq<u8>, Seq<u8>>,
    subject: Seq<u8>,
    queue_group: Option<Seq<u8>>,
    sid: Seq<u8>,
)
    requires
        subject::subscribed(subject) is Ok,
        forall|i: int| 0 <= i < w.table.len() ==> !is_of(#[trigger] w.table[i], id, sid),
    ensures
        ({
            let (v, s) = worker::handled(
                w,
                id,
                subs,
                FrameView::Sub { subject, queue_group, sid },
            );
            let (u, t) = worker::handled(v, id, s, FrameView::Unsub { sid, max_msgs: None });
            &&& u == w
            &&& t == subs.remove(sid)
            &&& forall|i: int| 0 <= i < u.table.len() ==> !is_of(#[trigger] u.table[i], id, sid)
        }),
{
    let (v, s) = worker::handled(w, id, subs, FrameView::Sub { subject, queue_group, sid });
    law_sub_makes_one_subscription(w, id, subs, subject, queue_group, sid);
    let n = w.table.len() as int;
    assert forall|j: int| 0 <= j < n implies !(is_of(#[trigger] v.table[j], id, sid)
        && v.table[j].pattern == subject::tokens(subject)) by {
        assert(v.table.take(n)[j] == v.table[j]);
        assert(!is_of(w.table[j], id, sid));
    }
    law_unsub_ends_a_subscription(v, id, s, sid, n);
    law_unsub_touches_nothing_else(v, id, s, sid);
    assert(v.table.remove(n) =~= v.table.take(n));
}

/// What a request is answered with on the wire when it is refused.
pub open spec fn refusal_line(text: Seq<u8>) -> Seq<u8> {
    bytes::ascii("-ERR ") + text + seq![13u8, 10u8]
}

/// The request is answered with `-ERR` and this text, and nothing else comes
/// of it: where the connection is live, open and has room, the line stands
/// behind what was pending for it and its writer is woken; no one else is
/// sent anything, no subscription comes or goes.
pub open spec fn is_refused_with(
    w: WorkerView,
    id: u32,
    subs: Map<Seq<u8>, Seq<u8>>,
    frame: FrameView,
    text: Seq<u8>,
) -> bool {
    let (v, s) = worker::handled(w, id, subs, frame);
    &&& s == subs
    &&& v.table == w.table
    &&& v.random == w.random
    &&& v.next_conn_id == w.next_conn_id
    &&& v.links.connections.remove(id) == w.links.connections.remove(id)
    &&& has_room(w.links, id, refusal_line(text)) ==> {
        &&& v.links.connections.contains_key(id)
        &&& v.links.connections[id].pending == w.links.connections[id].pending + refusal_line(text)
        &&& v.links.connections[id].closing is None
        &&& v.links.woken == w.links.woken.push(id)
    }
}

proof fn lemma_is_refused_with(
    w: WorkerView,
    id: u32,
    subs: Map<Seq<u8>, Seq<u8>>,
    frame: FrameView,
)
    requires
        refusal(frame) is Some,
    ensures
        is_refused_with(w, id, subs, frame, refusal(frame)->0),
{
    let text = refusal(frame)->0;
    law_refused_request_is_answered(w, id, subs, frame);
    codec::law_wire_format(FrameView::Error { message: text });
    assert(emit::encoded(FrameView::Error { message: text }) =~= refusal_line(text));
    let (v, s) = worker::handled(w, id, subs, frame);
    assert(v.links.connections.remove(id) =~= w.links.connections.remove(id));
}

/// A `SUB` to a subject that cannot be subscribed to is refused.
pub proof fn law_bad_sub_is_refused(
    w: WorkerView,
    id: u32,
    subs: Map<Seq<u8>, Seq<u8>>,
    subject: Seq<u8>,
    queue_group: Option<Seq<u8>>,
    sid: Seq<u8>,
)
    requires
        subject::subscribed(subject) is Err,
    ensures
        is_refused_with(
            w,
            id,
            subs,
            FrameView::Sub { subject, queue_group, sid },
            bytes::ascii("invalid subject"),
        ),
{
    lemma_is_refused_with(w, id, subs, FrameView::Sub { subject, queue_group, sid });
}

/// An `UNSUB` after a number of messages is refused, whatever the number.
pub proof fn law_unsub_later_is_refused(
    w: WorkerView,
    id: u32,
    subs: Map<Seq<u8>, Seq<u8>>,
    sid: Seq<u8>,
    max_msgs: u64,
)
    ensures
        is_refused_with(
            w,
            id,
            subs,
            FrameView::Unsub { sid, max_msgs: Some(max_msgs) },
            bytes::ascii("UNSUB max_msgs not supported"),
        ),
{
    lemma_is_refused_with(w, id, subs, FrameView::Unsub { sid, max_msgs: Some(max_msgs) });
}

/// A `PUB` is refused if its payload is larger than a mebibyte, or else if
/// its subject cannot be published to, with a text for each error.
pub proof fn law_bad_pub_is_refused(
    w: WorkerView,
    id: u32,
    subs: Map<Seq<u8>, Seq<u8>>,
    subject: Seq<u8>,
    reply_to: Option<Seq<u8>>,
    payload: Seq<u8>,
)
    requires
        payload.len() > 1048576 || subject::published(subject) is Err,
    ensures
        is_refused_with(
            w,
            id,
            subs,
            FrameView::Pub { subject, reply_to, payload },
            if payload.len() > 1048576 {
                bytes::ascii("maximum payload exceeded")
            } else {
                match subject::published(subject)->Err_0 {
                    SubjectError::Empty => bytes::ascii("empty subject"),
                    SubjectError::EmptyToken => bytes::ascii("empty token in subject"),
                    SubjectError::WildcardInPublish => bytes::ascii(
                        "wildcard not allowed in publish subject",
                    ),
                    SubjectError::InvalidGreaterPosition => bytes::ascii(
                        "`>` must be the last token",
                    ),
                }
            },
        ),
{
    lemma_is_refused_with(w, id, subs, FrameView::Pub { subject, reply_to, payload });
}

/// Frames that only a server sends are refused.
pub proof fn law_server_frames_are_refused(
    w: WorkerView,
    id: u32,
    subs: Map<Seq<u8>, Seq<u8>>,
    frame: FrameView,
)
    requires
        frame is Msg || frame is Info || frame is Ack || frame is Error,
    ensures
        is_refused_with(w, id, subs, frame, bytes::ascii("unexpected verb")),
{
    lemma_is_refused_with(w, id, subs, frame);
}

/// `CONNECT` and `PONG` change nothing, whatever they carry.
pub proof fn law_connect_and_pong_are_silent(
    w: WorkerView,
    id: u32,
    subs: Map<Seq<u8>, Seq<u8>>,
    frame: FrameView,
)
    requires
        frame is Connect || frame is Pong,
    ensures
        worker::handled(w, id, subs, frame) == (w, subs),
{
}

/// A `PING` puts `PONG` behind what is pending for the connection, where it
/// is live, open and has room, and wakes its writer. Nothing else changes.
pub proof fn law_ping_is_ponged(w: WorkerView, id: u32, subs: Map<Seq<u8>, Seq<u8>>)
    requires
        has_room(w.links, id, bytes::ascii("PONG\r\n")),
    ensures
        ({
            let (v, s) = worker::handled(w, id, subs, FrameView::Ping);
            &&& s == subs
            &&& v.table == w.table
            &&& v.random == w.random
            &&& v.next_conn_id == w.next_conn_id
            &&& v.links.connections.remove(id) == w.links.connections.remove(id)
            &&& v.links.connections[id].pending == w.links.connections[id].pending + bytes::ascii(
                "PONG\r\n",
            )
            &&& v.links.connections[id].closing is None
            &&& v.links.woken == w.links.woken.push(id)
        }),
{
    law_ping_is_answered(w, id, subs);
    codec::law_wire_format(FrameView::Pong);
    let v = worker::handled(w, id, subs, FrameView::Ping).0;
    assert(v.links.connections.remove(id) =~= w.links.connections.remove(id));
}

/// A `PUB` that is not refused delivers the message: every receiver that it
/// can be delivered to has it behind what was pending, as a `MSG` under the
/// receiver's `sid` with the frame's own subject, reply-to and payload.
pub proof fn law_pub_is_delivered(
    w: WorkerView,
    id: u32,
    subs: Map<Seq<u8>, Seq<u8>>,
    subject: Seq<u8>,
    reply_to: Option<Seq<u8>>,
    payload: Seq<u8>,
    m: int,
)
    requires
        payload.len() <= 1048576,
        subject::published(subject) is Ok,
        0 <= m < receivers_of(w, subject).len(),
        deliverable(w, receivers_of(w, subject)[m], subject, reply_to, payload),
    ensures
        ({
            let t = receivers_of(w, subject)[m];
            let v = worker::handled(
                w,
                id,
                subs,
                FrameView::Pub { subject, reply_to, payload },
            ).0;
            gained(
                w.links.connections[t.conn_id].pending,
                v.links.connections[t.conn_id].pending,
                emit::encoded(FrameView::Msg { subject, sid: t.sid, reply_to, payload }),
            )
        }),
{
    law_receivers_have_the_message(w, id, m, subject, reply_to, payload);
}

/// A `PUB` that is not refused sends a connection that is live, open and has
/// room exactly the messages for its own receivers, in order and nothing
/// more; one that no receiver belongs to is left alone. The table, the ids and
/// the publisher's own subscriptions stay as they are, and the random numbers
/// move on by one for each queue group.
pub proof fn law_pub_is_exact(
    w: WorkerView,
    id: u32,
    subs: Map<Seq<u8>, Seq<u8>>,
    subject: Seq<u8>,
    reply_to: Option<Seq<u8>>,
    payload: Seq<u8>,
    conn_id: u32,
)
    requires
        payload.len() <= 1048576,
        subject::published(subject) is Ok,
    ensures
        ({
            let to = receivers_of(w, subject);
            let (v, s) = worker::handled(w, id, subs, FrameView::Pub { subject, reply_to, payload });
            let messages = messages_for(
                to,
                to.len() as int,
                conn_id,
                subject,
                reply_to,
                payload,
            );
            &&& s == subs
            &&& v.table == w.table
            &&& v.next_conn_id == w.next_conn_id
            &&& v.random == dispatch::random_after(
                w.random,
                dispatch::group_names(matching::matched(w.table, subject::tokens(subject))).len(),
            )
            &&& has_room(w.links, conn_id, messages) ==> {
                &&& v.links.connections[conn_id].pending == w.links.connections[conn_id].pending
                    + messages
                &&& v.links.connections[conn_id].closing is None
            }
            &&& (forall|i: int| 0 <= i < to.len() ==> (#[trigger] to[i]).conn_id != conn_id) ==> {
                &&& v.links.connections[conn_id] == w.links.connections[conn_id]
                &&& v.links.connections.contains_key(conn_id)
                    == w.links.connections.contains_key(conn_id)
            }
        }),
{
    let to = receivers_of(w, subject);
    let n = to.len() as int;
    let messages = messages_for(to, n, conn_id, subject, reply_to, payload);
    if has_room(w.links, conn_id, messages) {
        law_delivery_is_exact(w.links, to, n, conn_id, subject, reply_to, payload);
    }
    if forall|i: int| 0 <= i < to.len() ==> (#[trigger] to[i]).conn_id != conn_id {
        law_others_are_left_alone(w.links, to, n, conn_id, subject, reply_to, payload);
    }
}

/// Whom a `PUB` reaches: each live subscription without a queue group whose
/// pattern matches the subject, once, and of every queue group that has such
/// subscriptions one member. `chosen` are the members that are picked, one for
/// each of the groups `groups`.
pub proof fn law_pub_reaches_whom_it_should(w: WorkerView, subject: Seq<u8>) -> (r: (
    Seq<subscription::SubView>,
    Seq<Seq<u8>>,
))
    requires
        subject::published(subject) is Ok,
    ensures
        ({
            let (chosen, groups) = r;
            let matching = w.table.filter(
                |e: Entry| subject::pattern_matches(e.pattern, subject::tokens(subject)),
            ).map_values(|e: Entry| e.sub);
            let alone = matching.filter(|s: subscription::SubView| s.queue_group is None);
            &&& groups.no_duplicates()
            &&& chosen.len() == groups.len()
            &&& forall|g: Seq<u8>| #[trigger]
                groups.contains(g) <==> exists|i: int|
                    0 <= i < matching.len() && (#[trigger] matching[i]).queue_group == Some(g)
            &&& forall|i: int|
                0 <= i < chosen.len() ==> (#[trigger] chosen[i]).queue_group == Some(groups[i])
                    && matching.contains(chosen[i])
            &&& receivers_of(w, subject).to_multiset() == (alone + chosen).map_values(
                |s: subscription::SubView| Target { conn_id: s.conn_id, sid: s.sid },
            ).to_multiset()
        }),
{
    broadcast use vstd::seq_lib::group_to_multiset_ensures;

    let tokens = subject::tokens(subject);
    subject::lemma_publish_fault(tokens);
    let found = matching::matched(w.table, tokens);
    let matching = matching::matching(w.table, tokens);
    matching::law_match_is_exact(w.table, tokens);
    let (chosen, groups) = dispatch::law_receivers_are_plain_and_picked(found, w.random);
    let pred = |s: subscription::SubView| s.queue_group is None;
    let aim = |s: subscription::SubView| Target { conn_id: s.conn_id, sid: s.sid };
    let alone = matching.filter(pred);
    lemma_filter_multiset(found, matching, pred);
    vstd::seq_lib::lemma_multiset_commutative(found.filter(pred), chosen);
    vstd::seq_lib::lemma_multiset_commutative(alone, chosen);
    lemma_map_multiset(found.filter(pred) + chosen, alone + chosen, aim);
    assert forall|g: Seq<u8>| #[trigger] groups.contains(g) <==> exists|i: int|
        0 <= i < matching.len() && (#[trigger] matching[i]).queue_group == Some(g) by {
        if groups.contains(g) {
            let i = choose|i: int|
                0 <= i < found.len() && (#[trigger] found[i]).queue_group == Some(g);
            lemma_same_members(found, matching, found[i]);
            assert(found.contains(found[i]));
            let j = choose|j: int| 0 <= j < matching.len() && matching[j] == found[i];
            assert(matching[j].queue_group == Some(g));
        }
        if exists|i: int|
            0 <= i < matching.len() && (#[trigger] matching[i]).queue_group == Some(g) {
            let i = choose|i: int|
                0 <= i < matching.len() && (#[trigger] matching[i]).queue_group == Some(g);
            lemma_same_members(found, matching, matching[i]);
            assert(matching.contains(matching[i]));
            let j = choose|j: int| 0 <= j < found.len() && found[j] == matching[i];
            assert(found[j].queue_group == Some(g));
        }
    }
    assert forall|i: int| 0 <= i < chosen.len() implies (#[trigger] chosen[i]).queue_group == Some(
        groups[i],
    ) && matching.contains(chosen[i]) by {
        lemma_same_members(found, matching, chosen[i]);
    }
    (chosen, groups)
}

proof fn lemma_same_members(
    a: Seq<subscription::SubView>,
    b: Seq<subscription::SubView>,
    x: subscription::SubView,
)
    requires
        a.to_multiset() == b.to_multiset(),
    ensures
        a.contains(x) == b.contains(x),
{
    broadcast use vstd::seq_lib::group_to_multiset_ensures;

    assert(a.contains(x) == (a.to_multiset().count(x) > 0));
    assert(b.contains(x) == (b.to_multiset().count(x) > 0));
}

/// Filtering keeps what two lists have in common.
proof fn lemma_filter_multiset(
    a: Seq<subscription::SubView>,
    b: Seq<subscription::SubView>,
    pred: spec_fn(subscription::SubView) -> bool,
)
    requires
        a.to_multiset() == b.to_multiset(),
    ensures
        a.filter(pred).to_multiset() == b.filter(pred).to_multiset(),
{
    assert forall|x: subscription::SubView| #[trigger]
        a.filter(pred).to_multiset().count(x) == b.filter(pred).to_multiset().count(x) by {
        lemma_filter_count(a, pred, x);
        lemma_filter_count(b, pred, x);
    }
    assert(a.filter(pred).to_multiset() =~= b.filter(pred).to_multiset());
}

proof fn lemma_filter_count(
    list: Seq<subscription::SubView>,
    pred: spec_fn(subscription::SubView) -> bool,
    x: subscription::SubView,
)
    ensures
        list.filter(pred).to_multiset().count(x) == (if pred(x) {
            list.to_multiset().count(x)
        } else {
            0
        }),
    decreases list.len(),
{
    broadcast use vstd::seq_lib::group_to_multiset_ensures;

    reveal(Seq::filter);
    if list.len() > 0 {
        let init = list.drop_last();
        lemma_filter_count(init, pred, x);
        assert(list =~= init.push(list.last()));
    }
}

/// How often a receiver is named is how many subscriptions name it.
proof fn lemma_map_count(
    list: Seq<subscription::SubView>,
    f: spec_fn(subscription::SubView) -> Target,
    t: Target,
    pred: spec_fn(subscription::SubView) -> bool,
)
    requires
        forall|s: subscription::SubView| #[trigger] pred(s) == (f(s) == t),
    ensures
        list.map_values(f).to_multiset().count(t) == list.filter(pred).len(),
    decreases list.len(),
{
    broadcast use vstd::seq_lib::group_to_multiset_ensures;

    reveal(Seq::filter);
    if list.len() > 0 {
        let init = list.drop_last();
        lemma_map_count(init, f, t, pred);
        assert(list.map_values(f) =~= init.map_values(f).push(f(list.last())));
    }
}

/// Lists of the same subscriptions name the same receivers.
proof fn lemma_map_multiset(
    a: Seq<subscription::SubView>,
    b: Seq<subscription::SubView>,
    f: spec_fn(subscription::SubView) -> Target,
)
    requires
        a.to_multiset() == b.to_multiset(),
    ensures
        a.map_values(f).to_multiset() == b.map_values(f).to_multiset(),
{
    broadcast use vstd::seq_lib::group_to_multiset_ensures;

    assert forall|t: Target| #[trigger]
        a.map_values(f).to_multiset().count(t) == b.map_values(f).to_multiset().count(t) by {
        let pred = |s: subscription::SubView| f(s) == t;
        lemma_map_count(a, f, t, pred);
        lemma_map_count(b, f, t, pred);
        lemma_filter_multiset(a, b, pred);
        assert(a.filter(pred).to_multiset().len() == a.filter(pred).len());
        assert(b.filter(pred).to_multiset().len() == b.filter(pred).len());
    }
    assert(a.map_values(f).to_multiset() =~= b.map_values(f).to_multiset());
}

/// After a frame that leaves the connection closing, nothing more is acted on:
/// what follows stays unread.
pub proof fn law_closing_stops_reading(p: Progress, id: u32, frame: FrameView, tail: Seq<u8>)
    requires
        codec::legal(frame),
        emit::encoded(frame).len() <= usize::MAX,
        p.accum == emit::encoded(frame) + tail,
        worker::handled(p.worker, id, p.subs, frame).0.links.connections[id].closing is Some,
    ensures
        worker::processed(p, id) == (Progress {
            worker: worker::handled(p.worker, id, p.subs, frame).0,
            subs: worker::handled(p.worker, id, p.subs, frame).1,
            accum: tail,
        }),
{
    codec::law_parse_undoes_emit(frame, tail);
    assert(p.accum.skip(emit::encoded(frame).len() as int) =~= tail);
}

/// Frames before a malformed one are acted on, in their order; then the
/// connection is closed for a protocol error, and nothing else comes of the
/// rest.
pub proof fn law_good_frames_before_a_bad_one(
    w: WorkerView,
    id: u32,
    subs: Map<Seq<u8>, Seq<u8>>,
    frames: Seq<FrameView>,
    bad: Seq<u8>,
)
    requires
        w.links.connections.contains_key(id),
        sendable(frames, usize::MAX as nat),
        stays_open(w, id, subs, frames),
        grammar::parsed(bad) is Error,
    ensures
        ({
            let (v, s) = acted_on(w, id, subs, frames);
            let q = worker::processed(
                Progress { worker: w, subs, accum: stream(frames) + bad },
                id,
            );
            &&& q.subs == s
            &&& q.worker.table == v.table
            &&& q.worker.random == v.random
            &&& q.worker.links.connections.remove(id) == v.links.connections.remove(id)
            &&& q.worker.links.connections[id].pending == v.links.connections[id].pending
            &&& q.worker.links.connections[id].closing == Some(CloseReason::ProtocolError)
        }),
    decreases frames.len(),
{
    let p = Progress { worker: w, subs, accum: stream(frames) + bad };
    if frames.len() == 0 {
        assert(p.accum =~= bad);
        let q = worker::processed(p, id);
        assert(q.worker.links.connections.remove(id) =~= w.links.connections.remove(id));
    } else {
        let tail = stream(frames.skip(1)) + bad;
        assert(p.accum =~= emit::encoded(frames[0]) + tail);
        let (v, s) = worker::handled(w, id, subs, frames[0]);
        assert(stays_open(v, id, s, frames.skip(1)));
        worker::lemma_handled_keeps(w, id, subs, frames[0]);
        lemma_rest_is_sendable(frames, usize::MAX as nat);
        lemma_frame_then_rest(p, id, frames[0], tail);
        law_good_frames_before_a_bad_one(v, id, s, frames.skip(1), bad);
    }
}

/// A receiver whose connection is open but has no room for all the messages
/// that it is owed is cut off as a slow consumer: it has those that fitted, up
/// to some point, behind what was pending, and gets no more.
pub proof fn law_delivery_without_room(
    l: LinksView,
    to: Seq<Target>,
    k: int,
    conn_id: u32,
    subject: Seq<u8>,
    reply_to: Option<Seq<u8>>,
    payload: Seq<u8>,
)
    requires
        0 <= k <= to.len(),
        l.connections.contains_key(conn_id),
        l.connections[conn_id].closing is None,
        l.connections[conn_id].used <= l.connections[conn_id].capacity,
        l.connections[conn_id].used + messages_for(
            to,
            k,
            conn_id,
            subject,
            reply_to,
            payload,
        ).len() > l.connections[conn_id].capacity,
    ensures
        ({
            let after = worker::delivered(l, to, k, subject, reply_to, payload);
            &&& after.connections.contains_key(conn_id)
            &&& after.connections[conn_id].closing == Some(CloseReason::SlowConsumer)
            &&& exists|j: int|
                0 <= j < k && after.connections[conn_id].pending
                    == l.connections[conn_id].pending + #[trigger] messages_for(
                    to,
                    j,
                    conn_id,
                    subject,
                    reply_to,
                    payload,
                )
        }),
    decreases k,
{
    let before = l.connections[conn_id];
    if k > 0 {
        let prior = messages_for(to, k - 1, conn_id, subject, reply_to, payload);
        if before.used + prior.len() <= before.capacity {
            law_delivery_is_exact(l, to, k - 1, conn_id, subject, reply_to, payload);
            let after = worker::delivered(l, to, k, subject, reply_to, payload);
            assert(after.connections[conn_id].pending == before.pending + messages_for(
                to,
                k - 1,
                conn_id,
                subject,
                reply_to,
                payload,
            ));
        } else {
            law_delivery_without_room(l, to, k - 1, conn_id, subject, reply_to, payload);
            let j = choose|j: int|
                0 <= j < k - 1 && worker::delivered(
                    l,
                    to,
                    k - 1,
                    subject,
                    reply_to,
                    payload,
                ).connections[conn_id].pending == before.pending + #[trigger] messages_for(
                    to,
                    j,
                    conn_id,
                    subject,
                    reply_to,
                    payload,
                );
            assert(worker::delivered(l, to, k, subject, reply_to, payload).connections[conn_id].pending
                == before.pending + messages_for(to, j, conn_id, subject, reply_to, payload));
        }
    }
}

/// A connection that is being closed is sent nothing more, and keeps its
/// reason.
pub proof fn law_closing_connections_get_nothing(
    l: LinksView,
    to: Seq<Target>,
    k: int,
    conn_id: u32,
    subject: Seq<u8>,
    reply_to: Option<Seq<u8>>,
    payload: Seq<u8>,
)
    requires
        0 <= k <= to.len(),
        l.connections.contains_key(conn_id),
        l.connections[conn_id].closing is Some,
    ensures
        ({
            let after = worker::delivered(l, to, k, subject, reply_to, payload);
            &&& after.connections.contains_key(conn_id)
            &&& after.connections[conn_id].closing == l.connections[conn_id].closing
            &&& after.connections[conn_id].pending == l.connections[conn_id].pending
        }),
    decreases k,
{
    if k > 0 {
        law_closing_connections_get_nothing(l, to, k - 1, conn_id, subject, reply_to, payload);
    }
}

/// A `PUB` that is not refused cuts a subscriber off that does not drain what
/// it is sent, and no one else: where the messages for a connection do not fit
/// its buffer, it is to be closed as a slow consumer. One that is being closed
/// already is sent nothing, and one that is not live stays so.
pub proof fn law_pub_cuts_slow_consumers_off(
    w: WorkerView,
    id: u32,
    subs: Map<Seq<u8>, Seq<u8>>,
    subject: Seq<u8>,
    reply_to: Option<Seq<u8>>,
    payload: Seq<u8>,
    conn_id: u32,
)
    requires
        payload.len() <= 1048576,
        subject::published(subject) is Ok,
    ensures
        ({
            let to = receivers_of(w, subject);
            let o = w.links.connections[conn_id];
            let v = worker::handled(
                w,
                id,
                subs,
                FrameView::Pub { subject, reply_to, payload },
            ).0.links.connections;
            let owed = messages_for(to, to.len() as int, conn_id, subject, reply_to, payload);
            &&& v.dom() == w.links.connections.dom()
            &&& w.links.connections.contains_key(conn_id) && o.closing is None && o.used
                <= o.capacity && o.used + owed.len() > o.capacity ==> v[conn_id].closing == Some(
                CloseReason::SlowConsumer,
            ) && o.pending.is_prefix_of(v[conn_id].pending) && v[conn_id].pending.len()
                < o.pending.len() + owed.len()
            &&& w.links.connections.contains_key(conn_id) && o.closing is Some ==> v[conn_id].closing
                == o.closing && v[conn_id].pending == o.pending
        }),
{
    let to = receivers_of(w, subject);
    let n = to.len() as int;
    let o = w.links.connections[conn_id];
    let owed = messages_for(to, n, conn_id, subject, reply_to, payload);
    worker::lemma_handled_keeps(w, id, subs, FrameView::Pub { subject, reply_to, payload });
    if w.links.connections.contains_key(conn_id) {
        if o.closing is Some {
            law_closing_connections_get_nothing(
                w.links,
                to,
                n,
                conn_id,
                subject,
                reply_to,
                payload,
            );
        } else if o.used <= o.capacity && o.used + owed.len() > o.capacity {
            law_delivery_without_room(w.links, to, n, conn_id, subject, reply_to, payload);
            let after = worker::delivered(w.links, to, n, subject, reply_to, payload);
            let j = choose|j: int|
                0 <= j < n && after.connections[conn_id].pending == o.pending
                    + #[trigger] messages_for(to, j, conn_id, subject, reply_to, payload);
            let had = messages_for(to, j, conn_id, subject, reply_to, payload);
            lemma_messages_grow(to, j, n, conn_id, subject, reply_to, payload);
            assert((o.pending + had).subrange(0, o.pending.len() as int) =~= o.pending);
            lemma_room_is_kept(w.links, to, n, conn_id, subject, reply_to, payload);
        }
    }
}

proof fn lemma_messages_grow(
    to: Seq<Target>,
    j: int,
    k: int,
    conn_id: u32,
    subject: Seq<u8>,
    reply_to: Option<Seq<u8>>,
    payload: Seq<u8>,
)
    requires
        0 <= j <= k <= to.len(),
    ensures
        messages_for(to, j, conn_id, subject, reply_to, payload).len() <= messages_for(
            to,
            k,
            conn_id,
            subject,
            reply_to,
            payload,
        ).len(),
    decreases k,
{
    if j < k {
        lemma_messages_grow(to, j, k - 1, conn_id, subject, reply_to, payload);
    }
}

/// What has been used of a buffer stays within it, and counts what was added.
proof fn lemma_room_is_kept(
    l: LinksView,
    to: Seq<Target>,
    k: int,
    conn_id: u32,
    subject: Seq<u8>,
    reply_to: Option<Seq<u8>>,
    payload: Seq<u8>,
)
    requires
        0 <= k <= to.len(),
        l.connections.contains_key(conn_id),
        l.connections[conn_id].used <= l.connections[conn_id].capacity,
    ensures
        ({
            let o = l.connections[conn_id];
            let after = worker::delivered(l, to, k, subject, reply_to, payload);
            &&& after.connections.contains_key(conn_id)
            &&& after.connections[conn_id].used <= o.capacity
            &&& after.connections[conn_id].capacity == o.capacity
            &&& after.connections[conn_id].used - o.used == after.connections[conn_id].pending.len()
                - o.pending.len()
        }),
    decreases k,
{
    if k > 0 {
        lemma_room_is_kept(l, to, k - 1, conn_id, subject, reply_to, payload);
    }
}

/// A connection that is taken in has nothing pending, is open, and has a buffer
/// of its own, of the same size for all. Nothing else changes.
pub proof fn law_accepted_starts_afresh(w: WorkerView, id: u32)
    ensures
        ({
            let v = worker::accepted(w, id);
            let o = v.links.connections[id];
            &&& v.links.connections.contains_key(id)
            &&& o.pending.len() == 0
            &&& o.used == 0
            &&& o.capacity == 262144
            &&& o.closing is None
            &&& v.links.connections.remove(id) == w.links.connections.remove(id)
            &&& v.links.woken == w.links.woken
            &&& v.table == w.table
            &&& v.next_conn_id == w.next_conn_id
            &&& v.random == w.random
        }),
{
    let v = worker::accepted(w, id);
    assert(v.links.connections.remove(id) =~= w.links.connections.remove(id));
}

/// The greeting is an `INFO` with what the server says of itself, behind what
/// is pending for the connection, where it is live, open and has room. Nothing
/// else changes.
pub proof fn law_greeting_is_sent(w: WorkerView, id: u32)
    ensures
        ({
            let v = worker::greeted(w, id);
            let line = bytes::ascii("INFO ") + worker::server_info() + seq![13u8, 10u8];
            &&& v.links.connections.remove(id) == w.links.connections.remove(id)
            &&& v.table == w.table
            &&& v.next_conn_id == w.next_conn_id
            &&& v.random == w.random
            &&& has_room(w.links, id, line) ==> v.links.connections[id].pending
                == w.links.connections[id].pending + line && v.links.connections[id].closing is None
                && v.links.woken == w.links.woken.push(id)
        }),
{
    let v = worker::greeted(w, id);
    codec::law_wire_format(FrameView::Info { options: worker::server_info() });
    assert(v.links.connections.remove(id) =~= w.links.connections.remove(id));
}

/// A connection that leaves takes its subscriptions along and nothing else: the
/// others stay in the order in which they were made, and the ids, the random
/// numbers and the wake-ups are as they were.
pub proof fn law_leaving_changes_nothing_else(w: WorkerView, id: u32)
    ensures
        ({
            let v = worker::left(w, id);
            &&& v.table == w.table.filter(|e: Entry| e.sub.conn_id != id)
            &&& v.links.connections == w.links.connections.remove(id)
            &&& v.links.woken == w.links.woken
            &&& v.next_conn_id == w.next_conn_id
            &&& v.random == w.random
        }),
{
}

/// A client may have two mebibytes under way without completing a frame. With
/// more it is closed for a protocol error, whatever the bytes are, and none of
/// them is acted on; with no more, what has come is acted on.
pub proof fn law_a_flood_is_cut_off(p: Progress, id: u32, bytes: Seq<u8>)
    requires
        p.worker.links.connections.contains_key(id),
    ensures
        ({
            let q = worker::received(p, id, bytes);
            let o = p.worker.links.connections[id];
            if p.accum.len() + bytes.len() > 2097152 {
                &&& q.subs == p.subs
                &&& q.worker.table == p.worker.table
                &&& q.worker.random == p.worker.random
                &&& q.worker.links.connections.remove(id) == p.worker.links.connections.remove(id)
                &&& q.worker.links.connections[id].pending == o.pending
                &&& q.worker.links.connections[id].closing == (if o.closing is None {
                    Some(CloseReason::ProtocolError)
                } else {
                    o.closing
                })
            } else {
                q == worker::processed(Progress { accum: p.accum + bytes, ..p }, id)
            }
        }),
{
    let q = worker::received(p, id, bytes);
    if p.accum.len() + bytes.len() > 2097152 {
        assert(q.worker.links.connections.remove(id) =~= p.worker.links.connections.remove(id));
    }
}

/// There is room for the subscriptions that a read may make as long as the
/// table holds fewer than the machine can address, less one read.
pub proof fn law_there_is_room_for_subscriptions(held: nat, unread: nat)
    requires
        held + 2097152 < usize::MAX / 512,
    ensures
        worker::can_hold(held, unread),
{
}

/// A message is encoded for delivery where it takes no more than a mebibyte and
/// a page. That is so for every payload that is accepted, under a subject, a
/// `sid` and a reply-to that take less than a page together.
pub proof fn law_accepted_messages_can_be_encoded(
    subject: Seq<u8>,
    sid: Seq<u8>,
    reply_to: Option<Seq<u8>>,
    payload: Seq<u8>,
)
    requires
        payload.len() <= 1048576,
        subject.len() + sid.len() + (match reply_to {
            Some(t) => t.len(),
            None => 0,
        }) <= 4000,
    ensures
        emit::encoded(FrameView::Msg { subject, sid, reply_to, payload }).len()
            <= EMIT_SCRATCH_CAPACITY,
        EMIT_SCRATCH_CAPACITY == 1052672,
{
    codec::law_wire_format(FrameView::Msg { subject, sid, reply_to, payload });
    codec::lemma_count_is_short(payload.len());
    reveal_strlit("MSG ");
}

/// A connection is closing for whatever reason it has.
pub proof fn law_any_reason_closes(w: WorkerView, id: u32)
    ensures
        worker::is_closing(w, id) == (w.links.connections[id].closing is Some),
{
}

} // verus!
