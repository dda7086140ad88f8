//! What a connection's writer does next.

use crate::bytes;
use crate::connection_state::{self, ConnectionState, Outbound};
use crate::emit::{self, emit_err};
use crate::frame::FrameView;
use vstd::prelude::*;

verus! {

/// The next action of a writer that has been woken.
#[derive(Clone, Copy, Debug, PartialEq, Eq, Structural)]
pub enum WriterStep {
    /// Write this many bytes of the buffer to the peer, then ask again. If
    /// the write fails, shut the socket down and stop.
    Write(usize),
    /// Write this many bytes of the buffer to the peer, then shut the socket
    /// down and stop.
    Finish(usize),
    /// Shut the socket down and stop.
    Stop,
    /// Nothing to write: wait to be woken.
    Wait,
}

/// What a writer does once a step has been carried out.
#[derive(Clone, Copy, Debug, PartialEq, Eq, Structural)]
pub enum WriterMove {
    /// Ask for the next step.
    GoOn,
    /// Wait to be woken.
    Rest,
    /// Shut the socket down and stop.
    ShutDown,
}

/// The move that follows a step, where `written` says whether what the step
/// asked to be written was written.
///
/// A failed write ends the writer, and so does the last step, whatever becomes
/// of its write.
pub open spec fn move_after(step: WriterStep, written: bool) -> WriterMove {
    match step {
        WriterStep::Write(_) => if written {
            WriterMove::GoOn
        } else {
            WriterMove::ShutDown
        },
        WriterStep::Finish(_) | WriterStep::Stop => WriterMove::ShutDown,
        WriterStep::Wait => WriterMove::Rest,
    }
}

/// Tells what a writer does once `step` has been carried out. `written` is
/// whether the write succeeded, where the step asked for one. The reason to
/// close, if there is one, is not touched by a failed write.
pub fn after_step(step: WriterStep, written: bool) -> (next: WriterMove)
    ensures
        next == move_after(step, written),
{
    match step {
        WriterStep::Write(_) => if written {
            WriterMove::GoOn
        } else {
            WriterMove::ShutDown
        },
        WriterStep::Finish(_) | WriterStep::Stop => WriterMove::ShutDown,
        WriterStep::Wait => WriterMove::Rest,
    }
}

/// How many pending bytes go into a buffer of `room` bytes.
pub open spec fn chunk(o: Outbound, room: nat) -> nat {
    if o.pending.len() <= room {
        o.pending.len()
    } else {
        room
    }
}

/// The text to close with, where the connection is to be closed with one.
pub open spec fn last_words(o: Outbound) -> Option<Seq<u8>> {
    match o.closing {
        Some(reason) => connection_state::close_text(reason),
        None => None,
    }
}

/// The step that follows from a state, with a buffer of `room` bytes.
///
/// What is pending is written first. When nothing is pending any more and the
/// connection is to be closed, the reason goes out as a final `-ERR` where it
/// has a text and fits.
pub open spec fn next_step(o: Outbound, room: nat) -> WriterStep {
    let n = chunk(o, room);
    if n > 0 {
        WriterStep::Write(n as usize)
    } else if o.closing is None {
        WriterStep::Wait
    } else {
        match last_words(o) {
            Some(message) => {
                let code = emit::encoded(FrameView::Error { message });
                if code.len() <= room {
                    WriterStep::Finish(code.len() as usize)
                } else {
                    WriterStep::Stop
                }
            },
            None => WriterStep::Stop,
        }
    }
}

/// The state after the step. What has been handed out to be written is no
/// longer pending. With its last step the writer has acted on the reason to
/// close, which is cleared.
pub open spec fn stepped(o: Outbound, room: nat) -> Outbound {
    let left = connection_state::drained(o, chunk(o, room));
    if next_step(o, room) is Finish || next_step(o, room) is Stop {
        Outbound { closing: None, ..left }
    } else {
        left
    }
}

/// Takes the next step of the writer: puts the bytes to write at the head of
/// `buf` and says what to do with them. The last step, when everything pending
/// has been drained, clears the reason to close.
pub fn writer_step(state: &mut ConnectionState, buf: &mut [u8]) -> (step: WriterStep)
    requires
        old(state).wf(),
    ensures
        final(state).wf(),
        final(state).owner() == old(state).owner(),
        final(buf)@.len() == old(buf)@.len(),
        step == next_step(old(state)@, old(buf)@.len()),
        final(state)@ == stepped(old(state)@, old(buf)@.len()),
        step is Finish || step is Stop ==> final(state)@.closing is None,
        step matches WriterStep::Write(n) ==> final(buf)@.take(n as int)
            == old(state)@.pending.take(n as int),
        step matches WriterStep::Finish(n) ==> final(buf)@.take(n as int) == emit::encoded(
            FrameView::Error { message: last_words(old(state)@)->0 },
        ),
{
    let n: usize = state.drain_into(buf);
    if n > 0 {
        assert(buf@.take(n as int) =~= old(state)@.pending.take(n as int));
        return WriterStep::Write(n);
    }
    match state.take_close() {
        None => WriterStep::Wait,
        Some(reason) => match reason.err_text() {
            Some(message) => match emit_err(buf, message) {
                Ok(n) => {
                    assert(buf@.take(n as int) =~= emit::encoded(
                        FrameView::Error { message: message@ },
                    ));
                    WriterStep::Finish(n)
                },
                Err(_) => WriterStep::Stop,
            },
            None => WriterStep::Stop,
        },
    }
}

/// Nothing that was enqueued is dropped by a close: the writer comes to its
/// last step only when nothing is pending.
pub proof fn law_pending_goes_first(o: Outbound, room: nat)
    requires
        room > 0,
        o.pending.len() > 0,
    ensures
        next_step(o, room) is Write,
        connection_state::drained(o, chunk(o, room)).pending.len() < o.pending.len(),
{
}

/// A writer with nothing left to write ends if and only if the connection is
/// to be closed.
pub proof fn law_writer_ends_with_the_connection(o: Outbound, room: nat)
    requires
        o.pending.len() == 0,
    ensures
        next_step(o, room) is Wait == (o.closing is None),
        next_step(o, room) !is Write,
{
}

/// What a writer that is woken puts on the wire until it rests or ends, while
/// its writes succeed.
pub open spec fn poured(o: Outbound, room: nat) -> Seq<u8>
    decreases o.pending.len(),
{
    let n = chunk(o, room);
    if n > 0 {
        o.pending.take(n as int) + poured(stepped(o, room), room)
    } else if next_step(o, room) is Finish {
        emit::encoded(FrameView::Error { message: last_words(o)->0 })
    } else {
        Seq::empty()
    }
}

/// A writer that is woken puts everything pending on the wire, in order, and
/// behind it the final `-ERR`, where the connection is to be closed with a
/// text that fits the buffer. However large the buffer is, nothing is lost,
/// written twice or out of order.
pub proof fn law_writer_writes_all_in_order(o: Outbound, room: nat)
    requires
        room > 0,
    ensures
        poured(o, room) == o.pending + (match last_words(o) {
            Some(message) => {
                let code = emit::encoded(FrameView::Error { message });
                if code.len() <= room {
                    code
                } else {
                    Seq::empty()
                }
            },
            None => Seq::empty(),
        }),
    decreases o.pending.len(),
{
    let n = chunk(o, room) as int;
    if n > 0 {
        let next = stepped(o, room);
        law_writer_writes_all_in_order(next, room);
        assert(o.pending =~= o.pending.take(n) + next.pending);
        assert(poured(o, room) =~= o.pending.take(n) + poured(next, room));
    } else {
        assert(o.pending =~= Seq::<u8>::empty());
    }
}

/// A writer ends with a failed write or with its last step, and not otherwise:
/// while its writes succeed and it is not to be closed, it goes on or rests.
pub proof fn law_writer_ends_for_a_reason(o: Outbound, room: nat, written: bool)
    requires
        room > 0,
    ensures
        move_after(next_step(o, room), written) is ShutDown == (if o.pending.len() > 0 {
            !written
        } else {
            o.closing is Some
        }),
        move_after(next_step(o, room), written) is Rest == (o.pending.len() == 0
            && o.closing is None),
{
}

/// The reason to close is cleared when the buffer has drained and the writer
/// ends, and not before: the step that ends it finds nothing pending.
pub proof fn law_reason_is_cleared_at_the_end(o: Outbound, room: nat)
    requires
        room > 0,
    ensures
        stepped(o, room).closing == (if next_step(o, room) is Finish || next_step(o, room) is Stop {
            None
        } else {
            o.closing
        }),
        next_step(o, room) is Finish || next_step(o, room) is Stop ==> o.pending.len() == 0
            && o.closing is Some,
{
}

/// Each step of a writer: as many pending bytes as the buffer takes, while
/// there are any; then, for a connection that is to be closed, its last words
/// on the wire, where it has some and they fit.
pub proof fn law_steps_of_a_writer(o: Outbound, room: nat)
    requires
        room <= usize::MAX,
    ensures
        ({
            let step = next_step(o, room);
            let least = if o.pending.len() <= room {
                o.pending.len()
            } else {
                room
            };
            let words = match o.closing {
                Some(reason) => connection_state::close_text(reason),
                None => None,
            };
            &&& least > 0 ==> step == WriterStep::Write(least as usize) && stepped(o, room).pending
                == o.pending.skip(least as int) && stepped(o, room).closing == o.closing
            &&& least == 0 && o.closing is None ==> step == WriterStep::Wait && stepped(
                o,
                room,
            ).pending == o.pending
            &&& least == 0 && o.closing is Some ==> match words {
                Some(text) => {
                    let line = bytes::ascii("-ERR ") + text + seq![13u8, 10u8];
                    if line.len() <= room {
                        step == WriterStep::Finish(line.len() as usize) && emit::encoded(
                            FrameView::Error { message: last_words(o)->0 },
                        ) == line
                    } else {
                        step == WriterStep::Stop
                    }
                },
                None => step == WriterStep::Stop,
            }
        }),
{
    if let Some(text) = last_words(o) {
        crate::codec::law_wire_format(FrameView::Error { message: text });
    }
    assert(o.pending.skip(0) =~= o.pending);
}

/// What follows each step: after a write that went well the next step, after
/// one that failed the end; after the last step the end in any case; and after
/// a step with nothing to do a rest.
pub proof fn law_moves_of_a_writer(n: usize, written: bool)
    ensures
        move_after(WriterStep::Write(n), true) is GoOn,
        move_after(WriterStep::Write(n), false) is ShutDown,
        move_after(WriterStep::Finish(n), written) is ShutDown,
        move_after(WriterStep::Stop, written) is ShutDown,
        move_after(WriterStep::Wait, written) is Rest,
{
}

} // verus!
