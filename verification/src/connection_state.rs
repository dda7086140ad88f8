//! Per-connection outbound state, between the reader and the writer.
//!
//! Each connection has a reader (parses incoming frames, changes the
//! subscription table, enqueues outbound bytes on the [`ConnectionState`] of
//! other connections) and a writer (drains its own [`ConnectionState`] onto
//! the socket). This is the one object that both work on.
//!
//! The outbound buffer does not wrap. Bytes are appended at its tail and taken
//! from its head; when it has been drained completely, both go back to zero.

use crate::bytes::{self, copy_into, text};
use crate::subscription::ConnectionId;
use vstd::prelude::*;

verus! {

/// Default per-connection outbound buffer capacity.
pub const DEFAULT_OUTBOUND_CAPACITY: usize = 256 * 1024;

/// Why a connection is being closed.
#[derive(Clone, Copy, Debug, PartialEq, Eq, Structural)]
pub enum CloseReason {
    /// Outbound buffer would overflow on a publish; the connection is
    /// not draining fast enough.
    SlowConsumer,
    /// The reader observed a malformed frame on the wire.
    ProtocolError,
    /// Peer disconnected (or read returned an unrecoverable error). The
    /// writer should drain whatever is pending and exit without
    /// emitting a `-ERR` frame.
    PeerClosed,
}

/// The text of the final `-ERR` frame, where there is one.
pub open spec fn close_text(reason: CloseReason) -> Option<Seq<u8>> {
    match reason {
        CloseReason::SlowConsumer => Some(bytes::ascii("slow consumer")),
        CloseReason::ProtocolError => Some(bytes::ascii("protocol error")),
        CloseReason::PeerClosed => None,
    }
}

impl CloseReason {
    /// Text for the `-ERR` frame the writer emits before closing,
    /// or `None` if no `-ERR` should be sent (e.g., the peer is already
    /// gone).
    #[must_use]
    pub fn err_text(self) -> (r: Option<&'static [u8]>)
        ensures
            crate::frame::opt_bytes(r) == close_text(self),
    {
        assert(vstd::string::is_ascii("slow consumer")) by {
            reveal_strlit("slow consumer");
        }
        assert(vstd::string::is_ascii("protocol error")) by {
            reveal_strlit("protocol error");
        }
        match self {
            CloseReason::SlowConsumer => Some(text("slow consumer")),
            CloseReason::ProtocolError => Some(text("protocol error")),
            CloseReason::PeerClosed => None,
        }
    }
}

/// Outcome of a [`ConnectionState::enqueue`] attempt.
#[derive(Debug, PartialEq, Eq, Structural)]
pub enum EnqueueOutcome {
    /// Bytes were appended to the outbound buffer.
    Queued,
    /// The outbound buffer would overflow. The connection has been
    /// marked for close with [`CloseReason::SlowConsumer`].
    SlowConsumerClosed,
    /// A close was already pending; the bytes were not enqueued. The
    /// caller should skip this subscriber.
    AlreadyClosing,
}

/// What a connection's outbound state holds.
#[verifier::ext_equal]
pub struct Outbound {
    /// The bytes still to be written to the peer.
    pub pending: Seq<u8>,
    /// How much of the buffer has been used since it was last empty.
    pub used: nat,
    /// The size of the buffer.
    pub capacity: nat,
    /// Why the connection is being closed, if it is.
    pub closing: Option<CloseReason>,
    /// The writer has to be woken.
    pub wake: bool,
}

/// An outbound state to which nothing has happened.
pub open spec fn fresh(capacity: nat) -> Outbound {
    Outbound { pending: Seq::empty(), used: 0, capacity, closing: None, wake: false }
}

/// The state after an attempt to enqueue `bytes`.
pub open spec fn enqueued(o: Outbound, bytes: Seq<u8>) -> Outbound {
    if o.closing is Some {
        Outbound { wake: true, ..o }
    } else if o.used + bytes.len() > o.capacity {
        Outbound { closing: Some(CloseReason::SlowConsumer), wake: true, ..o }
    } else {
        Outbound { pending: o.pending + bytes, used: o.used + bytes.len(), wake: true, ..o }
    }
}

/// What an attempt to enqueue `bytes` reports.
pub open spec fn enqueue_outcome(o: Outbound, bytes: Seq<u8>) -> EnqueueOutcome {
    if o.closing is Some {
        EnqueueOutcome::AlreadyClosing
    } else if o.used + bytes.len() > o.capacity {
        EnqueueOutcome::SlowConsumerClosed
    } else {
        EnqueueOutcome::Queued
    }
}

/// The state after a request to close.
pub open spec fn closed(o: Outbound, reason: CloseReason) -> Outbound {
    if o.closing is Some {
        o
    } else {
        Outbound { closing: Some(reason), wake: true, ..o }
    }
}

/// The state after `n` pending bytes have been taken.
pub open spec fn drained(o: Outbound, n: nat) -> Outbound {
    Outbound {
        pending: o.pending.skip(n as int),
        used: if n == o.pending.len() {
            0
        } else {
            o.used
        },
        ..o
    }
}

/// State shared between a connection's reader and writer.
pub struct ConnectionState {
    id: ConnectionId,
    outbound_data: Vec<u8>,
    outbound_head: usize,
    outbound_tail: usize,
    wake: bool,
    close_with: Option<CloseReason>,
}

impl View for ConnectionState {
    type V = Outbound;

    closed spec fn view(&self) -> Outbound {
        Outbound {
            pending: self.outbound_data@.subrange(
                self.outbound_head as int,
                self.outbound_tail as int,
            ),
            used: self.outbound_tail as nat,
            capacity: self.outbound_data@.len(),
            closing: self.close_with,
            wake: self.wake,
        }
    }
}

impl ConnectionState {
    /// The cursors stand in order within the buffer, and at zero when nothing
    /// is pending.
    pub closed spec fn wf(self) -> bool {
        &&& self.outbound_head <= self.outbound_tail <= self.outbound_data@.len()
        &&& self.outbound_head == self.outbound_tail ==> self.outbound_tail == 0
    }

    /// The connection that this state belongs to.
    pub closed spec fn owner(self) -> u32 {
        self.id@
    }

    /// Allocates a new state with `outbound_capacity` bytes of pre-
    /// allocated outbound buffer space.
    #[must_use]
    pub fn new(id: ConnectionId, outbound_capacity: usize) -> (r: Self)
        requires
            outbound_capacity <= isize::MAX,
        ensures
            r.wf(),
            r.owner() == id@,
            r@ == fresh(outbound_capacity as nat),
    {
        let outbound_data: Vec<u8> = vec![0;outbound_capacity];
        let r = Self {
            id,
            outbound_data,
            outbound_head: 0,
            outbound_tail: 0,
            wake: false,
            close_with: None,
        };
        assert(r@ =~= fresh(outbound_capacity as nat));
        r
    }

    /// Worker-local connection identifier.
    #[must_use]
    pub fn id(&self) -> (id: ConnectionId)
        ensures
            id@ == self.owner(),
    {
        self.id
    }

    /// Outbound buffer total capacity in bytes.
    #[must_use]
    pub fn outbound_capacity(&self) -> (n: usize)
        ensures
            n == self@.capacity,
    {
        self.outbound_data.len()
    }

    /// Pending bytes (tail − head).
    #[must_use]
    pub fn pending_bytes(&self) -> (n: usize)
        requires
            self.wf(),
        ensures
            n == self@.pending.len(),
    {
        self.outbound_tail - self.outbound_head
    }

    /// Appends `bytes` to the outbound buffer if there is room. On
    /// overflow, marks the connection for close with `SlowConsumer`
    /// (the writer picks this up and emits `-ERR slow consumer`
    /// before closing).
    ///
    /// Always wakes the writer: either there is new data to send, or there is
    /// a pending close to act on.
    pub fn enqueue(&mut self, bytes: &[u8]) -> (outcome: EnqueueOutcome)
        requires
            old(self).wf(),
        ensures
            final(self).wf(),
            final(self).owner() == old(self).owner(),
            final(self)@ == enqueued(old(self)@, bytes@),
            outcome == enqueue_outcome(old(self)@, bytes@),
    {
        let ghost before = self@;
        self.wake = true;
        if self.close_with.is_some() {
            assert(self@ =~= enqueued(before, bytes@));
            return EnqueueOutcome::AlreadyClosing;
        }
        let tail: usize = self.outbound_tail;
        let needed: usize = bytes.len();
        if needed > self.outbound_data.len() - tail {
            self.close_with = Some(CloseReason::SlowConsumer);
            assert(self@ =~= enqueued(before, bytes@));
            return EnqueueOutcome::SlowConsumerClosed;
        }
        copy_into(&mut self.outbound_data, tail, bytes);
        self.outbound_tail = tail + needed;
        assert(self@.pending =~= before.pending + bytes@);
        EnqueueOutcome::Queued
    }

    /// Marks the connection for close with `reason` and wakes the
    /// writer. Idempotent: subsequent calls do nothing.
    pub fn mark_close(&mut self, reason: CloseReason)
        requires
            old(self).wf(),
        ensures
            final(self).wf(),
            final(self).owner() == old(self).owner(),
            final(self)@ == closed(old(self)@, reason),
    {
        if self.close_with.is_none() {
            self.close_with = Some(reason);
            self.wake = true;
        }
    }

    /// Returns the pending close reason, if any. Does not clear it; the
    /// reason is cleared when the buffer has drained and the writer ends (see
    /// [`crate::writer::writer_step`]).
    #[must_use]
    pub fn close_reason(&self) -> (r: Option<CloseReason>)
        ensures
            r == self@.closing,
    {
        self.close_with
    }

    /// Takes the pending close reason, if any, and clears it.
    pub(crate) fn take_close(&mut self) -> (r: Option<CloseReason>)
        requires
            old(self).wf(),
        ensures
            final(self).wf(),
            final(self).owner() == old(self).owner(),
            r == old(self)@.closing,
            final(self)@ == (Outbound { closing: None, ..old(self)@ }),
    {
        let reason = self.close_with;
        self.close_with = None;
        reason
    }

    /// Tells whether the writer has to be woken, and takes that as done.
    pub fn take_wake(&mut self) -> (due: bool)
        requires
            old(self).wf(),
        ensures
            final(self).wf(),
            final(self).owner() == old(self).owner(),
            due == old(self)@.wake,
            final(self)@ == (Outbound { wake: false, ..old(self)@ }),
    {
        let due = self.wake;
        self.wake = false;
        due
    }

    /// Copies the currently pending bytes (head..tail) into `dst`,
    /// advancing the head cursor by the number of bytes copied. Returns
    /// the number of bytes written. If `dst` is shorter than the
    /// pending region, only `dst.len()` bytes are copied; the remainder
    /// stays for the next call.
    ///
    /// When the call drains the buffer completely (head == tail after
    /// the copy), both head and tail are reset to 0 so subsequent
    /// publishes start fresh at offset 0.
    pub fn drain_into(&mut self, dst: &mut [u8]) -> (n: usize)
        requires
            old(self).wf(),
        ensures
            final(self).wf(),
            final(self).owner() == old(self).owner(),
            n == (if old(self)@.pending.len() <= old(dst)@.len() {
                old(self)@.pending.len()
            } else {
                old(dst)@.len()
            }),
            final(self)@ == drained(old(self)@, n as nat),
            final(dst)@ == old(self)@.pending.take(n as int) + old(dst)@.skip(n as int),
    {
        let ghost before = self@;
        let ghost dst_before = dst@;
        let head: usize = self.outbound_head;
        let tail: usize = self.outbound_tail;
        let pending: usize = tail - head;
        let n: usize = if pending <= dst.len() {
            pending
        } else {
            dst.len()
        };
        copy_into(dst, 0, &self.outbound_data[head..head + n]);
        let new_head: usize = head + n;
        if new_head == tail {
            self.outbound_head = 0;
            self.outbound_tail = 0;
        } else {
            self.outbound_head = new_head;
        }
        assert(dst@ =~= before.pending.take(n as int) + dst_before.skip(n as int));
        assert(self@.pending =~= before.pending.skip(n as int));
        n
    }
}

/// What was enqueued comes out unchanged and in order: bytes that are accepted
/// behind those pending are drained behind them.
pub proof fn law_enqueue_then_drain(o: Outbound, bytes: Seq<u8>)
    requires
        enqueue_outcome(o, bytes) == EnqueueOutcome::Queued,
    ensures
        enqueued(o, bytes).pending == o.pending + bytes,
        drained(enqueued(o, bytes), o.pending.len() + bytes.len()).pending.len() == 0,
        drained(enqueued(o, bytes), o.pending.len() + bytes.len()).used == 0,
        drained(enqueued(o, bytes), o.pending.len()).pending == bytes,
{
    assert((o.pending + bytes).skip(o.pending.len() as int) =~= bytes);
}

/// Draining in two steps takes the same bytes as draining in one.
pub proof fn law_partial_drains_add_up(o: Outbound, m: nat, n: nat)
    requires
        m + n <= o.pending.len(),
    ensures
        o.pending.take(m as int) + drained(o, m).pending.take(n as int) == o.pending.take(
            (m + n) as int,
        ),
        drained(drained(o, m), n).pending == drained(o, m + n).pending,
{
    assert(o.pending.take(m as int) + drained(o, m).pending.take(n as int) =~= o.pending.take(
        (m + n) as int,
    ));
    assert(o.pending.skip(m as int).skip(n as int) =~= o.pending.skip((m + n) as int));
}

/// A full drain gives the whole buffer back: anything up to its capacity can
/// be enqueued next.
pub proof fn law_full_drain_frees_the_buffer(o: Outbound, bytes: Seq<u8>)
    requires
        o.closing is None,
        bytes.len() <= o.capacity,
    ensures
        enqueue_outcome(drained(o, o.pending.len()), bytes) == EnqueueOutcome::Queued,
{
}

/// The first reason to close wins, and nothing is enqueued behind it.
pub proof fn law_first_close_wins(o: Outbound, first: CloseReason, second: CloseReason, bytes: Seq<u8>)
    requires
        o.closing is None,
    ensures
        closed(closed(o, first), second) == closed(o, first),
        enqueue_outcome(closed(o, first), bytes) == EnqueueOutcome::AlreadyClosing,
        enqueued(closed(o, first), bytes).closing == Some(first),
        enqueued(closed(o, first), bytes).pending == o.pending,
{
}

/// No wake-up is lost: whatever an enqueue or a first close changed, the
/// writer is to be woken afterwards.
pub proof fn law_changes_wake_the_writer(o: Outbound, bytes: Seq<u8>, reason: CloseReason)
    ensures
        enqueued(o, bytes).wake,
        closed(o, reason) != o ==> closed(o, reason).wake,
{
}

/// When bytes are taken and what comes of it: they are, behind what is
/// pending, if and only if the connection is not being closed and they fit
/// behind what the buffer has used. Where they do not fit the connection is to
/// be closed as a slow consumer. A connection that is being closed keeps what
/// is pending and its reason.
pub proof fn law_enqueue_is_exact(o: Outbound, bytes: Seq<u8>)
    ensures
        ({
            let fits = o.used + bytes.len() <= o.capacity;
            let after = enqueued(o, bytes);
            &&& after.capacity == o.capacity
            &&& after.wake
            &&& (enqueue_outcome(o, bytes) is Queued) == (o.closing is None && fits)
            &&& (enqueue_outcome(o, bytes) is SlowConsumerClosed) == (o.closing is None && !fits)
            &&& (enqueue_outcome(o, bytes) is AlreadyClosing) == (o.closing is Some)
            &&& after.pending == (if o.closing is None && fits {
                o.pending + bytes
            } else {
                o.pending
            })
            &&& after.used == (if o.closing is None && fits {
                o.used + bytes.len()
            } else {
                o.used
            })
            &&& after.closing == (if o.closing is None && !fits {
                Some(CloseReason::SlowConsumer)
            } else {
                o.closing
            })
        }),
{
}

/// What draining does: the oldest pending bytes go, no others; the whole buffer
/// is free again exactly when none are left; and nothing else changes.
pub proof fn law_drain_is_exact(o: Outbound, n: nat)
    requires
        n <= o.pending.len(),
    ensures
        o.pending == o.pending.take(n as int) + drained(o, n).pending,
        drained(o, n).pending.len() == o.pending.len() - n,
        drained(o, n).used == (if drained(o, n).pending.len() == 0 {
            0
        } else {
            o.used
        }),
        drained(o, n).capacity == o.capacity,
        drained(o, n).closing == o.closing,
        drained(o, n).wake == o.wake,
{
    assert(o.pending =~= o.pending.take(n as int) + drained(o, n).pending);
}

/// What a request to close does: an open connection is to be closed for the
/// reason given, whichever it is; what is pending stays to be written.
pub proof fn law_close_is_exact(o: Outbound, reason: CloseReason)
    ensures
        closed(o, reason).pending == o.pending,
        closed(o, reason).used == o.used,
        closed(o, reason).capacity == o.capacity,
        closed(o, reason).closing == (if o.closing is None {
            Some(reason)
        } else {
            o.closing
        }),
        closed(o, reason).wake == (o.wake || o.closing is None),
{
}

/// The texts to close with: one for each reason but that the peer is gone.
pub proof fn law_close_texts(reason: CloseReason)
    ensures
        close_text(CloseReason::SlowConsumer) == Some(bytes::ascii("slow consumer")),
        close_text(CloseReason::ProtocolError) == Some(bytes::ascii("protocol error")),
        close_text(reason) is None == (reason == CloseReason::PeerClosed),
{
}

/// A new state has nothing pending, all of its buffer free, and is open.
pub proof fn law_fresh_is_empty(capacity: nat, bytes: Seq<u8>)
    ensures
        fresh(capacity).pending.len() == 0,
        fresh(capacity).closing is None,
        !fresh(capacity).wake,
        fresh(capacity).capacity == capacity,
        enqueue_outcome(fresh(capacity), bytes) is Queued == (bytes.len() <= capacity),
{
}

} // verus!
