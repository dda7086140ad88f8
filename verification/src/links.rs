//! The live connections of a worker and the writers that have to be woken.

use crate::connection_state::{self, CloseReason, ConnectionState, Outbound};
use crate::emit::{self, emit_err, emit_info, emit_pong};
use crate::frame::FrameView;
use crate::subscription::ConnectionId;
use crate::writer::{self, writer_step, WriterStep};
use std::collections::HashMap;
use vstd::prelude::*;

verus! {

broadcast use vstd::std_specs::hash::group_hash_axioms;

/// Buffer size for emitting short control frames (INFO, PONG, `-ERR`).
pub const SHORT_FRAME_BUF: usize = 4096;

/// Live connections and pending wake-ups.
#[verifier::ext_equal]
pub struct LinksView {
    /// The outbound state of each live connection.
    pub connections: Map<u32, Outbound>,
    /// The connections whose writer has to be woken, in the order in which
    /// that came up.
    pub woken: Seq<u32>,
}

/// One connection's state is replaced; a wake-up that it asks for is noted.
pub open spec fn replaced(l: LinksView, id: u32, o: Outbound) -> LinksView {
    LinksView {
        connections: l.connections.insert(id, Outbound { wake: false, ..o }),
        woken: if o.wake {
            l.woken.push(id)
        } else {
            l.woken
        },
    }
}

/// `bytes` are enqueued for a connection, if it is live.
pub open spec fn sent(l: LinksView, id: u32, bytes: Seq<u8>) -> LinksView {
    if l.connections.contains_key(id) {
        replaced(l, id, connection_state::enqueued(l.connections[id], bytes))
    } else {
        l
    }
}

/// A frame is enqueued for a connection, if it can be encoded in `room` bytes.
pub open spec fn replied(l: LinksView, id: u32, frame: FrameView, room: nat) -> LinksView {
    if emit::encoded(frame).len() <= room {
        sent(l, id, emit::encoded(frame))
    } else {
        l
    }
}

/// A request is refused with `-ERR <message>`.
pub open spec fn refused(l: LinksView, id: u32, message: Seq<u8>) -> LinksView {
    replied(l, id, FrameView::Error { message }, SHORT_FRAME_BUF as nat)
}

/// A connection is marked for close, if it is live.
pub open spec fn hung_up(l: LinksView, id: u32, reason: CloseReason) -> LinksView {
    if l.connections.contains_key(id) {
        replaced(l, id, connection_state::closed(l.connections[id], reason))
    } else {
        l
    }
}

/// Live connections and pending wake-ups.
pub struct Links {
    connections: HashMap<u32, ConnectionState>,
    woken: Vec<u32>,
}

impl View for Links {
    type V = LinksView;

    closed spec fn view(&self) -> LinksView {
        LinksView {
            connections: self.connections@.map_values(|c: ConnectionState| c@),
            woken: self.woken@,
        }
    }
}

impl Links {
    /// Each state is well formed, is kept under its own id, and asks for no
    /// wake-up that has not been noted.
    pub closed spec fn wf(self) -> bool {
        forall|id: u32| #[trigger]
            self.connections@.contains_key(id) ==> {
                &&& self.connections@[id].wf()
                &&& self.connections@[id].owner() == id
                &&& !self.connections@[id]@.wake
            }
    }

    /// No connection yet.
    pub fn new() -> (r: Self)
        ensures
            r.wf(),
            r@ == (LinksView { connections: Map::empty(), woken: Seq::empty() }),
    {
        let r = Links { connections: HashMap::new(), woken: Vec::new() };
        assert(r@.connections =~= Map::<u32, Outbound>::empty());
        r
    }

    /// True if the connection is live.
    pub fn is_live(&self, id: ConnectionId) -> (r: bool)
        ensures
            r == self@.connections.contains_key(id@),
    {
        self.connections.contains_key(&id.get())
    }

    /// Puts a state back under its id and notes the wake-up that it asks for.
    fn put(&mut self, id: u32, state: ConnectionState)
        requires
            old(self).wf(),
            state.wf(),
            state.owner() == id,
        ensures
            final(self).wf(),
            final(self)@ == replaced(old(self)@, id, state@),
    {
        let ghost before = self@;
        let ghost o = state@;
        let mut state = state;
        if state.take_wake() {
            self.woken.push(id);
        }
        self.connections.insert(id, state);
        assert(self@.connections =~= before.connections.insert(id, Outbound { wake: false, ..o }));
    }

    /// Adds a connection with an outbound buffer of `capacity` bytes.
    pub fn insert(&mut self, id: ConnectionId, capacity: usize)
        requires
            old(self).wf(),
            capacity <= isize::MAX,
        ensures
            final(self).wf(),
            final(self)@ == replaced(
                old(self)@,
                id@,
                connection_state::fresh(capacity as nat),
            ),
    {
        self.put(id.get(), ConnectionState::new(id, capacity));
    }

    /// Takes a connection out.
    pub fn remove(&mut self, id: ConnectionId) -> (r: Option<ConnectionState>)
        requires
            old(self).wf(),
        ensures
            final(self).wf(),
            final(self)@ == (LinksView {
                connections: old(self)@.connections.remove(id@),
                ..old(self)@
            }),
            r is Some == old(self)@.connections.contains_key(id@),
            r matches Some(state) ==> {
                &&& state.wf()
                &&& state.owner() == id@
                &&& state@ == old(self)@.connections[id@]
                &&& !state@.wake
            },
    {
        let ghost before = self@;
        let r = self.connections.remove(&id.get());
        assert(self@.connections =~= before.connections.remove(id@));
        r
    }

    /// Enqueues `bytes` for a connection, if it is live.
    pub fn send(&mut self, id: ConnectionId, bytes: &[u8])
        requires
            old(self).wf(),
        ensures
            final(self).wf(),
            final(self)@ == sent(old(self)@, id@, bytes@),
    {
        let ghost before = self@;
        if let Some(state) = self.remove(id) {
            let mut state = state;
            state.enqueue(bytes);
            self.put(id.get(), state);
            assert(self@.connections =~= sent(before, id@, bytes@).connections);
        } else {
            assert(self@.connections =~= before.connections);
        }
    }

    /// Marks a connection for close, if it is live.
    pub fn hang_up(&mut self, id: ConnectionId, reason: CloseReason)
        requires
            old(self).wf(),
        ensures
            final(self).wf(),
            final(self)@ == hung_up(old(self)@, id@, reason),
    {
        let ghost before = self@;
        if let Some(state) = self.remove(id) {
            let mut state = state;
            state.mark_close(reason);
            self.put(id.get(), state);
            assert(self@.connections =~= hung_up(before, id@, reason).connections);
        } else {
            assert(self@.connections =~= before.connections);
        }
    }

    /// Why a live connection is being closed, if it is.
    pub fn close_reason(&self, id: ConnectionId) -> (r: Option<CloseReason>)
        ensures
            r == (if self@.connections.contains_key(id@) {
                self@.connections[id@].closing
            } else {
                None
            }),
    {
        match self.connections.get(&id.get()) {
            Some(state) => state.close_reason(),
            None => None,
        }
    }

    /// Refuses a request with `-ERR <message>`.
    pub fn emit_err_to(&mut self, id: ConnectionId, message: &[u8])
        requires
            old(self).wf(),
        ensures
            final(self).wf(),
            final(self)@ == refused(old(self)@, id@, message@),
    {
        let mut buf: [u8; 4096] = [0;4096];
        if let Ok(n) = emit_err(&mut buf, message) {
            let frame = &buf[0..n];
            assert(frame@ =~= emit::encoded(FrameView::Error { message: message@ }));
            self.send(id, frame);
        }
    }

    /// Answers a `PING`.
    pub fn pong(&mut self, id: ConnectionId)
        requires
            old(self).wf(),
        ensures
            final(self).wf(),
            final(self)@ == replied(old(self)@, id@, FrameView::Pong, 8),
    {
        let mut buf: [u8; 8] = [0;8];
        if let Ok(n) = emit_pong(&mut buf) {
            let frame = &buf[0..n];
            assert(frame@ =~= emit::encoded(FrameView::Pong));
            self.send(id, frame);
        }
    }

    /// Sends the greeting, or hangs up if it does not fit.
    pub fn greet(&mut self, id: ConnectionId, options: &[u8])
        requires
            old(self).wf(),
        ensures
            final(self).wf(),
            final(self)@ == (if emit::encoded(FrameView::Info { options: options@ }).len()
                <= SHORT_FRAME_BUF {
                sent(old(self)@, id@, emit::encoded(FrameView::Info { options: options@ }))
            } else {
                hung_up(old(self)@, id@, CloseReason::ProtocolError)
            }),
    {
        let mut buf: [u8; 4096] = [0;4096];
        if let Ok(n) = emit_info(&mut buf, options) {
            let frame = &buf[0..n];
            assert(frame@ =~= emit::encoded(FrameView::Info { options: options@ }));
            self.send(id, frame);
        } else {
            self.hang_up(id, CloseReason::ProtocolError);
        }
    }

    /// The next step of the writer of a live connection.
    pub fn write_next(&mut self, id: ConnectionId, buf: &mut [u8]) -> (step: Option<WriterStep>)
        requires
            old(self).wf(),
        ensures
            final(self).wf(),
            final(buf)@.len() == old(buf)@.len(),
            step is Some == old(self)@.connections.contains_key(id@),
            step is None ==> final(self)@ == old(self)@ && final(buf)@ == old(buf)@,
            step matches Some(s) ==> {
                let o = old(self)@.connections[id@];
                &&& s == writer::next_step(o, old(buf)@.len())
                &&& final(self)@ == (LinksView {
                    connections: old(self)@.connections.insert(
                        id@,
                        writer::stepped(o, old(buf)@.len()),
                    ),
                    ..old(self)@
                })
                &&& s is Finish || s is Stop ==> final(self)@.connections[id@].closing is None
                &&& s matches WriterStep::Write(n) ==> final(buf)@.take(n as int)
                    == o.pending.take(n as int)
                &&& s matches WriterStep::Finish(n) ==> final(buf)@.take(n as int)
                    == emit::encoded(
                    FrameView::Error { message: writer::last_words(o)->0 },
                )
            },
    {
        let ghost before = self@;
        if let Some(state) = self.remove(id) {
            let mut state = state;
            let step = writer_step(&mut state, buf);
            self.put(id.get(), state);
            assert(self@.connections =~= before.connections.insert(
                id@,
                writer::stepped(before.connections[id@], old(buf)@.len()),
            ));
            Some(step)
        } else {
            assert(self@.connections =~= before.connections);
            None
        }
    }

    /// The connection whose wake-up came up last, taken off the list.
    pub fn next_woken(&mut self) -> (r: Option<ConnectionId>)
        requires
            old(self).wf(),
        ensures
            final(self).wf(),
            final(self)@.connections == old(self)@.connections,
            r is Some == (old(self)@.woken.len() > 0),
            r matches Some(id) ==> id@ == old(self)@.woken.last() && final(self)@.woken == old(
                self,
            )@.woken.drop_last(),
            r is None ==> final(self)@.woken == old(self)@.woken,
    {
        match self.woken.pop() {
            Some(id) => Some(ConnectionId::new(id)),
            None => None,
        }
    }
}

/// Whom bytes are sent to and what comes of it: a live connection gets them as
/// an attempt to enqueue says, and its writer is woken; every other connection
/// is left as it is. Bytes for one that is not live go nowhere.
pub proof fn law_sent_reaches_one(l: LinksView, id: u32, bytes: Seq<u8>)
    ensures
        sent(l, id, bytes).connections.remove(id) == l.connections.remove(id),
        sent(l, id, bytes).connections.contains_key(id) == l.connections.contains_key(id),
        l.connections.contains_key(id) ==> {
            let o = l.connections[id];
            let after = sent(l, id, bytes).connections[id];
            let fits = o.closing is None && o.used + bytes.len() <= o.capacity;
            &&& after.pending == (if fits {
                o.pending + bytes
            } else {
                o.pending
            })
            &&& after.closing == (if o.closing is None && !fits {
                Some(CloseReason::SlowConsumer)
            } else {
                o.closing
            })
            &&& after.capacity == o.capacity
            &&& sent(l, id, bytes).woken == l.woken.push(id)
        },
        !l.connections.contains_key(id) ==> sent(l, id, bytes) == l,
{
    assert(sent(l, id, bytes).connections.remove(id) =~= l.connections.remove(id));
}

/// A frame is sent if it can be encoded in the room that there is, and else
/// not at all.
pub proof fn law_replies_are_sent_whole(l: LinksView, id: u32, frame: FrameView, room: nat)
    ensures
        replied(l, id, frame, room) == (if emit::encoded(frame).len() <= room {
            sent(l, id, emit::encoded(frame))
        } else {
            l
        }),
{
}

/// A live connection that is hung up on is to be closed, for the reason given
/// unless it has one already. What is pending for it stays, every other
/// connection is left as it is, and its writer is woken where that is new.
pub proof fn law_hung_up_closes_one(l: LinksView, id: u32, reason: CloseReason)
    ensures
        hung_up(l, id, reason).connections.remove(id) == l.connections.remove(id),
        hung_up(l, id, reason).connections.contains_key(id) == l.connections.contains_key(id),
        l.connections.contains_key(id) ==> {
            let o = l.connections[id];
            let after = hung_up(l, id, reason).connections[id];
            &&& after.pending == o.pending
            &&& after.capacity == o.capacity
            &&& after.used == o.used
            &&& after.closing == (if o.closing is None {
                Some(reason)
            } else {
                o.closing
            })
            &&& o.closing is None ==> hung_up(l, id, reason).woken == l.woken.push(id)
        },
        !l.connections.contains_key(id) ==> hung_up(l, id, reason) == l,
{
    assert(hung_up(l, id, reason).connections.remove(id) =~= l.connections.remove(id));
}

/// A refusal is sent where its line takes no more than a page, and else not at
/// all.
pub proof fn law_refusals_take_a_page(l: LinksView, id: u32, message: Seq<u8>)
    ensures
        refused(l, id, message) == (if message.len() + 7 <= 4096 {
            sent(l, id, emit::encoded(FrameView::Error { message }))
        } else {
            l
        }),
{
    crate::codec::lemma_encoded_len(message);
}

} // verus!
