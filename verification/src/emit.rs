//! Allocation-free wire emitter.
//!
//! Each `emit_*` function writes the encoded frame into a caller-provided
//! `&mut [u8]` and returns the number of bytes written, or
//! [`EmitError::BufferTooSmall`] if the output is too short.

use crate::bytes::{self, copy_into, text};
use crate::error::EmitError;
use crate::frame::{self, Frame, FrameView};
use crate::grammar::{self, SP, ZERO};
use vstd::prelude::*;

verus! {

/// Maximum bytes a `u64` decimal expansion can occupy.
const U64_DIGITS_MAX: usize = 20;

/// A field followed by the space behind it, or nothing.
pub open spec fn optional_field(field: Option<Seq<u8>>) -> Seq<Seq<u8>> {
    match field {
        Some(b) => seq![b, seq![SP]],
        None => seq![],
    }
}

/// The parts that a frame is written in, in order.
pub open spec fn pieces(frame: FrameView) -> Seq<Seq<u8>> {
    let crlf = grammar::crlf();
    match frame {
        FrameView::Ping => seq![bytes::ascii("PING\r\n")],
        FrameView::Pong => seq![bytes::ascii("PONG\r\n")],
        FrameView::Ack => seq![bytes::ascii("+OK\r\n")],
        FrameView::Error { message } => seq![bytes::ascii("-ERR "), message, crlf],
        FrameView::Info { options } => seq![bytes::ascii("INFO "), options, crlf],
        FrameView::Connect { options } => seq![bytes::ascii("CONNECT "), options, crlf],
        FrameView::Sub { subject, queue_group, sid } => seq![
            bytes::ascii("SUB "),
            subject,
            seq![SP],
        ] + optional_field(queue_group) + seq![sid, crlf],
        FrameView::Unsub { sid, max_msgs } => seq![bytes::ascii("UNSUB "), sid] + (match max_msgs {
            Some(m) => seq![seq![SP], grammar::decimal(m as nat)],
            None => seq![],
        }) + seq![crlf],
        FrameView::Pub { subject, reply_to, payload } => seq![
            bytes::ascii("PUB "),
            subject,
            seq![SP],
        ] + optional_field(reply_to) + seq![grammar::decimal(payload.len()), crlf, payload, crlf],
        FrameView::Msg { subject, sid, reply_to, payload } => seq![
            bytes::ascii("MSG "),
            subject,
            seq![SP],
            sid,
            seq![SP],
        ] + optional_field(reply_to) + seq![grammar::decimal(payload.len()), crlf, payload, crlf],
    }
}

/// The first `k` parts, one behind the other.
pub open spec fn joined(parts: Seq<Seq<u8>>, k: int) -> Seq<u8>
    decreases k,
{
    if k <= 0 {
        Seq::empty()
    } else {
        joined(parts, k - 1) + parts[k - 1]
    }
}

/// The bytes of a frame on the wire.
pub open spec fn encoded(frame: FrameView) -> Seq<u8> {
    joined(pieces(frame), pieces(frame).len() as int)
}

/// `n`, or the largest number that a machine word holds.
pub open spec fn clip(n: int) -> usize {
    if n <= usize::MAX {
        n as usize
    } else {
        usize::MAX
    }
}

/// The error where `needed` bytes are required and there are `have`.
pub open spec fn too_small(needed: int, have: int) -> EmitError {
    EmitError::BufferTooSmall { needed: clip(needed), have: have as usize }
}

/// The first `k` parts fit in `room` bytes and the next one does not.
pub open spec fn stops_at(parts: Seq<Seq<u8>>, room: int, k: int) -> bool {
    &&& 0 <= k < parts.len()
    &&& joined(parts, k).len() <= room < joined(parts, k + 1).len()
}

/// Writing `parts` at the head of `before` gives `after` and succeeds or not.
///
/// Either all of them fit: they stand at the head of the buffer, what is
/// behind them is untouched, and the result is their length. Or writing stops
/// at the first part that does not fit: the parts before it have been written,
/// and what is behind them is untouched.
pub open spec fn wrote(
    before: Seq<u8>,
    parts: Seq<Seq<u8>>,
    after: Seq<u8>,
    r: Result<usize, EmitError>,
) -> bool {
    let code = joined(parts, parts.len() as int);
    if code.len() <= before.len() {
        &&& r matches Ok(n)
        &&& n == code.len()
        &&& after == code + before.skip(code.len() as int)
    } else {
        &&& r is Err
        &&& exists|k: int| #[trigger]
            stops_at(parts, before.len() as int, k) && after == joined(parts, k) + before.skip(
                joined(parts, k).len() as int,
            )
    }
}

/// Writing `parts` at the head of `before` gives `after` and returns `r`: the
/// number of bytes written, or an error with the bytes that all the parts
/// require.
pub open spec fn writes(
    before: Seq<u8>,
    parts: Seq<Seq<u8>>,
    after: Seq<u8>,
    r: Result<usize, EmitError>,
) -> bool {
    let n = parts.len() as int;
    &&& wrote(before, parts, after, r)
    &&& r is Err ==> r == Err::<usize, EmitError>(
        too_small(joined(parts, n).len() as int, before.len() as int),
    )
}

/// Emitting `frame` into `before` gives `after` and returns `r`.
pub open spec fn emits(
    before: Seq<u8>,
    frame: FrameView,
    after: Seq<u8>,
    r: Result<usize, EmitError>,
) -> bool {
    writes(before, pieces(frame), after, r)
}

/// `out` with the bytes from `pos` on replaced by `part`.
pub open spec fn overwritten(out: Seq<u8>, pos: int, part: Seq<u8>) -> Seq<u8> {
    out.take(pos) + part + out.skip(pos + part.len())
}

/// Writing one part at `pos`.
pub open spec fn puts(
    before: Seq<u8>,
    pos: int,
    part: Seq<u8>,
    after: Seq<u8>,
    r: Result<usize, EmitError>,
) -> bool {
    let end = pos + part.len();
    if end <= before.len() {
        &&& r matches Ok(n)
        &&& n == end
        &&& after == overwritten(before, pos, part)
    } else {
        &&& r == Err::<usize, EmitError>(too_small(end, before.len() as int))
        &&& after == before
    }
}

/// The outcome of writing the parts from the `k`-th on at `pos`, one by one.
spec fn run(out: Seq<u8>, pos: int, parts: Seq<Seq<u8>>, k: int) -> (
    Seq<u8>,
    Result<usize, EmitError>,
)
    decreases parts.len() - k,
{
    if k >= parts.len() {
        (out, Ok(pos as usize))
    } else {
        let end = pos + parts[k].len();
        if end <= out.len() {
            run(overwritten(out, pos, parts[k]), end, parts, k + 1)
        } else {
            (out, Err(too_small(end, out.len() as int)))
        }
    }
}

/// After `k` parts writing has come to `pos` in `out`.
spec fn step(before: Seq<u8>, parts: Seq<Seq<u8>>, out: Seq<u8>, pos: int, k: int) -> bool {
    run(before, 0, parts, 0) == run(out, pos, parts, k)
}

/// Writing part by part has the outcome that [`wrote`] states.
proof fn lemma_run(before: Seq<u8>, parts: Seq<Seq<u8>>)
    requires
        before.len() <= usize::MAX,
    ensures
        wrote(before, parts, run(before, 0, parts, 0).0, run(before, 0, parts, 0).1),
{
    assert(before =~= joined(parts, 0) + before.skip(0));
    lemma_run_from(before, parts, before, 0);
}

proof fn lemma_run_from(before: Seq<u8>, parts: Seq<Seq<u8>>, out: Seq<u8>, k: int)
    requires
        0 <= k <= parts.len(),
        joined(parts, k).len() <= before.len() <= usize::MAX,
        out == joined(parts, k) + before.skip(joined(parts, k).len() as int),
    ensures
        ({
            let r = run(out, joined(parts, k).len() as int, parts, k);
            wrote(before, parts, r.0, r.1)
        }),
    decreases parts.len() - k,
{
    let pos = joined(parts, k).len() as int;
    if k < parts.len() {
        let end = pos + parts[k].len();
        assert(joined(parts, k + 1) == joined(parts, k) + parts[k]);
        if end <= out.len() {
            assert(overwritten(out, pos, parts[k]) =~= joined(parts, k + 1) + before.skip(end));
            lemma_run_from(before, parts, overwritten(out, pos, parts[k]), k + 1);
        } else {
            lemma_joined_grows(parts, k + 1, parts.len() as int);
            assert(stops_at(parts, before.len() as int, k));
        }
    }
}

/// More parts make a longer text.
pub proof fn lemma_joined_grows(parts: Seq<Seq<u8>>, i: int, j: int)
    requires
        0 <= i <= j,
    ensures
        joined(parts, i).len() <= joined(parts, j).len(),
    decreases j - i,
{
    if i < j {
        lemma_joined_grows(parts, i, j - 1);
    }
}

/// Emits any [`Frame`] into `out`, returning bytes written.
///
/// # Errors
/// [`EmitError::BufferTooSmall`] if `out` cannot hold the encoded frame.
pub fn emit_frame(out: &mut [u8], frame: &Frame<'_>) -> (r: Result<usize, EmitError>)
    ensures
        emits(old(out)@, frame@, final(out)@, r),
{
    match *frame {
        Frame::Ping => emit_ping(out),
        Frame::Pong => emit_pong(out),
        Frame::Ack => emit_ok(out),
        Frame::Error { message } => emit_err(out, message),
        Frame::Info { options } => emit_info(out, options),
        Frame::Connect { options } => emit_connect(out, options),
        Frame::Sub { subject, queue_group, sid } => emit_sub(out, subject, queue_group, sid),
        Frame::Unsub { sid, max_msgs } => emit_unsub(out, sid, max_msgs),
        Frame::Pub { subject, reply_to, payload } => emit_pub(out, subject, reply_to, payload),
        Frame::Msg { subject, sid, reply_to, payload } => emit_msg(
            out,
            subject,
            sid,
            reply_to,
            payload,
        ),
    }
}

/// Emits `PING\r\n`.
pub fn emit_ping(out: &mut [u8]) -> (r: Result<usize, EmitError>)
    ensures
        emits(old(out)@, FrameView::Ping, final(out)@, r),
{
    assert(vstd::string::is_ascii("PING\r\n")) by {
        reveal_strlit("PING\r\n");
    }
    proof {
        assert(out.len() == out@.len());
        lemma_run(out@, pieces(FrameView::Ping));
        reveal_with_fuel(run, 2);
        reveal_with_fuel(joined, 2);
    }
    write_all(out, 0, text("PING\r\n"))
}

/// Emits `PONG\r\n`.
pub fn emit_pong(out: &mut [u8]) -> (r: Result<usize, EmitError>)
    ensures
        emits(old(out)@, FrameView::Pong, final(out)@, r),
{
    assert(vstd::string::is_ascii("PONG\r\n")) by {
        reveal_strlit("PONG\r\n");
    }
    proof {
        assert(out.len() == out@.len());
        lemma_run(out@, pieces(FrameView::Pong));
        reveal_with_fuel(run, 2);
        reveal_with_fuel(joined, 2);
    }
    write_all(out, 0, text("PONG\r\n"))
}

/// Emits `+OK\r\n`.
pub fn emit_ok(out: &mut [u8]) -> (r: Result<usize, EmitError>)
    ensures
        emits(old(out)@, FrameView::Ack, final(out)@, r),
{
    assert(vstd::string::is_ascii("+OK\r\n")) by {
        reveal_strlit("+OK\r\n");
    }
    proof {
        assert(out.len() == out@.len());
        lemma_run(out@, pieces(FrameView::Ack));
        reveal_with_fuel(run, 2);
        reveal_with_fuel(joined, 2);
    }
    write_all(out, 0, text("+OK\r\n"))
}

/// Emits `-ERR <message>\r\n`.
pub fn emit_err(out: &mut [u8], message: &[u8]) -> (r: Result<usize, EmitError>)
    ensures
        emits(old(out)@, FrameView::Error { message: message@ }, final(out)@, r),
{
    let r = put_err(out, message);
    if r.is_ok() {
        return r;
    }
    let ghost parts = pieces(FrameView::Error { message: message@ });
    proof {
        reveal_strlit("-ERR ");
    }
    assert(joined(parts, 0).len() == 0);
    assert(joined(parts, 1).len() == 5);
    let mut needed: usize = plus(5, message.len());
    assert(needed == clip(joined(parts, 2).len() as int));
    needed = plus(needed, 2);
    assert(needed == clip(joined(parts, 3).len() as int));
    Err(EmitError::BufferTooSmall { needed, have: out.len() })
}

/// Writes the parts of the frame one by one.
fn put_err(out: &mut [u8], message: &[u8]) -> (r: Result<usize, EmitError>)
    ensures
        wrote(
            old(out)@,
            pieces(FrameView::Error { message: message@ }),
            final(out)@,
            r,
        ),
{
    assert(vstd::string::is_ascii("-ERR ")) by {
        reveal_strlit("-ERR ");
    }
    let ghost before = out@;
    let ghost parts = pieces(FrameView::Error { message: message@ });
    proof {
        assert(out.len() == before.len());
        lemma_run(before, parts);
    }
    let mut n: usize = 0;
    n = write_all(out, n, text("-ERR "))?;
    assert(step(before, parts, out@, n as int, 1));
    n = write_all(out, n, message)?;
    assert(step(before, parts, out@, n as int, 2));
    n = write_crlf(out, n)?;
    assert(step(before, parts, out@, n as int, 3));
    Ok(n)
}

/// Emits `INFO <options>\r\n`. The options bytes are written verbatim.
pub fn emit_info(out: &mut [u8], options: &[u8]) -> (r: Result<usize, EmitError>)
    ensures
        emits(old(out)@, FrameView::Info { options: options@ }, final(out)@, r),
{
    let r = put_info(out, options);
    if r.is_ok() {
        return r;
    }
    let ghost parts = pieces(FrameView::Info { options: options@ });
    proof {
        reveal_strlit("INFO ");
    }
    assert(joined(parts, 0).len() == 0);
    assert(joined(parts, 1).len() == 5);
    let mut needed: usize = plus(5, options.len());
    assert(needed == clip(joined(parts, 2).len() as int));
    needed = plus(needed, 2);
    assert(needed == clip(joined(parts, 3).len() as int));
    Err(EmitError::BufferTooSmall { needed, have: out.len() })
}

/// Writes the parts of the frame one by one.
fn put_info(out: &mut [u8], options: &[u8]) -> (r: Result<usize, EmitError>)
    ensures
        wrote(
            old(out)@,
            pieces(FrameView::Info { options: options@ }),
            final(out)@,
            r,
        ),
{
    assert(vstd::string::is_ascii("INFO ")) by {
        reveal_strlit("INFO ");
    }
    let ghost before = out@;
    let ghost parts = pieces(FrameView::Info { options: options@ });
    proof {
        assert(out.len() == before.len());
        lemma_run(before, parts);
    }
    let mut n: usize = 0;
    n = write_all(out, n, text("INFO "))?;
    assert(step(before, parts, out@, n as int, 1));
    n = write_all(out, n, options)?;
    assert(step(before, parts, out@, n as int, 2));
    n = write_crlf(out, n)?;
    assert(step(before, parts, out@, n as int, 3));
    Ok(n)
}

/// Emits `CONNECT <options>\r\n`. The options bytes are written verbatim.
pub fn emit_connect(out: &mut [u8], options: &[u8]) -> (r: Result<usize, EmitError>)
    ensures
        emits(old(out)@, FrameView::Connect { options: options@ }, final(out)@, r),
{
    let r = put_connect(out, options);
    if r.is_ok() {
        return r;
    }
    let ghost parts = pieces(FrameView::Connect { options: options@ });
    proof {
        reveal_strlit("CONNECT ");
    }
    assert(joined(parts, 0).len() == 0);
    assert(joined(parts, 1).len() == 8);
    let mut needed: usize = plus(8, options.len());
    assert(needed == clip(joined(parts, 2).len() as int));
    needed = plus(needed, 2);
    assert(needed == clip(joined(parts, 3).len() as int));
    Err(EmitError::BufferTooSmall { needed, have: out.len() })
}

/// Writes the parts of the frame one by one.
fn put_connect(out: &mut [u8], options: &[u8]) -> (r: Result<usize, EmitError>)
    ensures
        wrote(
            old(out)@,
            pieces(FrameView::Connect { options: options@ }),
            final(out)@,
            r,
        ),
{
    assert(vstd::string::is_ascii("CONNECT ")) by {
        reveal_strlit("CONNECT ");
    }
    let ghost before = out@;
    let ghost parts = pieces(FrameView::Connect { options: options@ });
    proof {
        assert(out.len() == before.len());
        lemma_run(before, parts);
    }
    let mut n: usize = 0;
    n = write_all(out, n, text("CONNECT "))?;
    assert(step(before, parts, out@, n as int, 1));
    n = write_all(out, n, options)?;
    assert(step(before, parts, out@, n as int, 2));
    n = write_crlf(out, n)?;
    assert(step(before, parts, out@, n as int, 3));
    Ok(n)
}

/// Emits `SUB <subject> [queue] <sid>\r\n`.
pub fn emit_sub(
    out: &mut [u8],
    subject: &[u8],
    queue_group: Option<&[u8]>,
    sid: &[u8],
) -> (r: Result<usize, EmitError>)
    ensures
        emits(
            old(out)@,
            FrameView::Sub {
                subject: subject@,
                queue_group: frame::opt_bytes(queue_group),
                sid: sid@,
            },
            final(out)@,
            r,
        ),
{
    let r = put_sub(out, subject, queue_group, sid);
    if r.is_ok() {
        return r;
    }
    let ghost parts = pieces(
        FrameView::Sub {
            subject: subject@,
            queue_group: frame::opt_bytes(queue_group),
            sid: sid@,
        },
    );
    proof {
        reveal_strlit("SUB ");
    }
    assert(joined(parts, 0).len() == 0);
    assert(joined(parts, 1).len() == 4);
    let mut needed: usize = plus(4, subject.len());
    assert(needed == clip(joined(parts, 2).len() as int));
    needed = plus(needed, 1);
    assert(needed == clip(joined(parts, 3).len() as int));
    if let Some(q) = queue_group {
        needed = plus(needed, q.len());
        assert(needed == clip(joined(parts, 4).len() as int));
        needed = plus(needed, 1);
        assert(needed == clip(joined(parts, 5).len() as int));
    }
    let ghost k: int = if queue_group is Some {
        5
    } else {
        3
    };
    assert(needed == clip(joined(parts, k).len() as int));
    needed = plus(needed, sid.len());
    assert(needed == clip(joined(parts, k + 1).len() as int));
    needed = plus(needed, 2);
    assert(needed == clip(joined(parts, k + 2).len() as int));
    Err(EmitError::BufferTooSmall { needed, have: out.len() })
}

/// Writes the parts of the frame one by one.
fn put_sub(
    out: &mut [u8],
    subject: &[u8],
    queue_group: Option<&[u8]>,
    sid: &[u8],
) -> (r: Result<usize, EmitError>)
    ensures
        wrote(
            old(out)@,
            pieces(
                FrameView::Sub {
                    subject: subject@,
                    queue_group: frame::opt_bytes(queue_group),
                    sid: sid@,
                },
            ),
            final(out)@,
            r,
        ),
{
    assert(vstd::string::is_ascii("SUB ")) by {
        reveal_strlit("SUB ");
    }
    let ghost before = out@;
    let ghost parts = pieces(
        FrameView::Sub {
            subject: subject@,
            queue_group: frame::opt_bytes(queue_group),
            sid: sid@,
        },
    );
    proof {
        assert(out.len() == before.len());
        lemma_run(before, parts);
    }
    let mut n: usize = 0;
    n = write_all(out, n, text("SUB "))?;
    assert(step(before, parts, out@, n as int, 1));
    n = write_all(out, n, subject)?;
    assert(step(before, parts, out@, n as int, 2));
    n = write_byte(out, n, SP)?;
    assert(step(before, parts, out@, n as int, 3));
    if let Some(q) = queue_group {
        n = write_all(out, n, q)?;
        assert(step(before, parts, out@, n as int, 4));
        n = write_byte(out, n, SP)?;
        assert(step(before, parts, out@, n as int, 5));
    }
    let ghost k: int = if queue_group is Some { 5 } else { 3 };
    assert(step(before, parts, out@, n as int, k));
    n = write_all(out, n, sid)?;
    assert(step(before, parts, out@, n as int, k + 1));
    n = write_crlf(out, n)?;
    assert(step(before, parts, out@, n as int, k + 2));
    Ok(n)
}

/// Emits `UNSUB <sid> [max_msgs]\r\n`.
pub fn emit_unsub(out: &mut [u8], sid: &[u8], max_msgs: Option<u64>) -> (r: Result<usize, EmitError>)
    ensures
        emits(old(out)@, FrameView::Unsub { sid: sid@, max_msgs }, final(out)@, r),
{
    let r = put_unsub(out, sid, max_msgs);
    if r.is_ok() {
        return r;
    }
    let ghost parts = pieces(FrameView::Unsub { sid: sid@, max_msgs });
    proof {
        reveal_strlit("UNSUB ");
    }
    assert(joined(parts, 0).len() == 0);
    assert(joined(parts, 1).len() == 6);
    let mut needed: usize = plus(6, sid.len());
    assert(needed == clip(joined(parts, 2).len() as int));
    if let Some(m) = max_msgs {
        needed = plus(needed, 1);
        assert(needed == clip(joined(parts, 3).len() as int));
        needed = plus(needed, decimal_len(m));
        assert(needed == clip(joined(parts, 4).len() as int));
    }
    let ghost k: int = if max_msgs is Some {
        4
    } else {
        2
    };
    assert(needed == clip(joined(parts, k).len() as int));
    needed = plus(needed, 2);
    assert(needed == clip(joined(parts, k + 1).len() as int));
    Err(EmitError::BufferTooSmall { needed, have: out.len() })
}

/// Writes the parts of the frame one by one.
fn put_unsub(out: &mut [u8], sid: &[u8], max_msgs: Option<u64>) -> (r: Result<usize, EmitError>)
    ensures
        wrote(
            old(out)@,
            pieces(FrameView::Unsub { sid: sid@, max_msgs }),
            final(out)@,
            r,
        ),
{
    assert(vstd::string::is_ascii("UNSUB ")) by {
        reveal_strlit("UNSUB ");
    }
    let ghost before = out@;
    let ghost parts = pieces(FrameView::Unsub { sid: sid@, max_msgs });
    proof {
        assert(out.len() == before.len());
        lemma_run(before, parts);
    }
    let mut n: usize = 0;
    n = write_all(out, n, text("UNSUB "))?;
    assert(step(before, parts, out@, n as int, 1));
    n = write_all(out, n, sid)?;
    assert(step(before, parts, out@, n as int, 2));
    if let Some(m) = max_msgs {
        n = write_byte(out, n, SP)?;
        assert(step(before, parts, out@, n as int, 3));
        n = write_decimal_u64(out, n, m)?;
        assert(step(before, parts, out@, n as int, 4));
    }
    let ghost k: int = if max_msgs is Some { 4 } else { 2 };
    assert(step(before, parts, out@, n as int, k));
    n = write_crlf(out, n)?;
    assert(step(before, parts, out@, n as int, k + 1));
    Ok(n)
}

/// Emits `PUB <subject> [reply] <#bytes>\r\n<payload>\r\n`.
pub fn emit_pub(
    out: &mut [u8],
    subject: &[u8],
    reply_to: Option<&[u8]>,
    payload: &[u8],
) -> (r: Result<usize, EmitError>)
    ensures
        emits(
            old(out)@,
            FrameView::Pub {
                subject: subject@,
                reply_to: frame::opt_bytes(reply_to),
                payload: payload@,
            },
            final(out)@,
            r,
        ),
{
    let r = put_pub(out, subject, reply_to, payload);
    if r.is_ok() {
        return r;
    }
    let ghost parts = pieces(
        FrameView::Pub {
            subject: subject@,
            reply_to: frame::opt_bytes(reply_to),
            payload: payload@,
        },
    );
    proof {
        reveal_strlit("PUB ");
    }
    assert(joined(parts, 0).len() == 0);
    assert(joined(parts, 1).len() == 4);
    let mut needed: usize = plus(4, subject.len());
    assert(needed == clip(joined(parts, 2).len() as int));
    needed = plus(needed, 1);
    assert(needed == clip(joined(parts, 3).len() as int));
    if let Some(r) = reply_to {
        needed = plus(needed, r.len());
        assert(needed == clip(joined(parts, 4).len() as int));
        needed = plus(needed, 1);
        assert(needed == clip(joined(parts, 5).len() as int));
    }
    let ghost k: int = if reply_to is Some {
        5
    } else {
        3
    };
    assert(needed == clip(joined(parts, k).len() as int));
    needed = plus(needed, decimal_len(payload.len() as u64));
    assert(needed == clip(joined(parts, k + 1).len() as int));
    needed = plus(needed, 2);
    assert(needed == clip(joined(parts, k + 2).len() as int));
    needed = plus(needed, payload.len());
    assert(needed == clip(joined(parts, k + 3).len() as int));
    needed = plus(needed, 2);
    assert(needed == clip(joined(parts, k + 4).len() as int));
    Err(EmitError::BufferTooSmall { needed, have: out.len() })
}

/// Writes the parts of the frame one by one.
fn put_pub(
    out: &mut [u8],
    subject: &[u8],
    reply_to: Option<&[u8]>,
    payload: &[u8],
) -> (r: Result<usize, EmitError>)
    ensures
        wrote(
            old(out)@,
            pieces(
                FrameView::Pub {
                    subject: subject@,
                    reply_to: frame::opt_bytes(reply_to),
                    payload: payload@,
                },
            ),
            final(out)@,
            r,
        ),
{
    assert(vstd::string::is_ascii("PUB ")) by {
        reveal_strlit("PUB ");
    }
    let ghost before = out@;
    let ghost parts = pieces(
        FrameView::Pub {
            subject: subject@,
            reply_to: frame::opt_bytes(reply_to),
            payload: payload@,
        },
    );
    proof {
        assert(out.len() == before.len());
        lemma_run(before, parts);
    }
    let mut n: usize = 0;
    n = write_all(out, n, text("PUB "))?;
    assert(step(before, parts, out@, n as int, 1));
    n = write_all(out, n, subject)?;
    assert(step(before, parts, out@, n as int, 2));
    n = write_byte(out, n, SP)?;
    assert(step(before, parts, out@, n as int, 3));
    if let Some(r) = reply_to {
        n = write_all(out, n, r)?;
        assert(step(before, parts, out@, n as int, 4));
        n = write_byte(out, n, SP)?;
        assert(step(before, parts, out@, n as int, 5));
    }
    let ghost k: int = if reply_to is Some { 5 } else { 3 };
    assert(step(before, parts, out@, n as int, k));
    n = write_decimal_u64(out, n, payload.len() as u64)?;
    assert(step(before, parts, out@, n as int, k + 1));
    n = write_crlf(out, n)?;
    assert(step(before, parts, out@, n as int, k + 2));
    n = write_all(out, n, payload)?;
    assert(step(before, parts, out@, n as int, k + 3));
    n = write_crlf(out, n)?;
    assert(step(before, parts, out@, n as int, k + 4));
    Ok(n)
}

/// Emits `MSG <subject> <sid> [reply] <#bytes>\r\n<payload>\r\n`.
pub fn emit_msg(
    out: &mut [u8],
    subject: &[u8],
    sid: &[u8],
    reply_to: Option<&[u8]>,
    payload: &[u8],
) -> (r: Result<usize, EmitError>)
    ensures
        emits(
            old(out)@,
            FrameView::Msg {
                subject: subject@,
                sid: sid@,
                reply_to: frame::opt_bytes(reply_to),
                payload: payload@,
            },
            final(out)@,
            r,
        ),
{
    let r = put_msg(out, subject, sid, reply_to, payload);
    if r.is_ok() {
        return r;
    }
    let ghost parts = pieces(
        FrameView::Msg {
            subject: subject@,
            sid: sid@,
            reply_to: frame::opt_bytes(reply_to),
            payload: payload@,
        },
    );
    proof {
        reveal_strlit("MSG ");
    }
    assert(joined(parts, 0).len() == 0);
    assert(joined(parts, 1).len() == 4);
    let mut needed: usize = plus(4, subject.len());
    assert(needed == clip(joined(parts, 2).len() as int));
    needed = plus(needed, 1);
    assert(needed == clip(joined(parts, 3).len() as int));
    needed = plus(needed, sid.len());
    assert(needed == clip(joined(parts, 4).len() as int));
    needed = plus(needed, 1);
    assert(needed == clip(joined(parts, 5).len() as int));
    if let Some(r) = reply_to {
        needed = plus(needed, r.len());
        assert(needed == clip(joined(parts, 6).len() as int));
        needed = plus(needed, 1);
        assert(needed == clip(joined(parts, 7).len() as int));
    }
    let ghost k: int = if reply_to is Some {
        7
    } else {
        5
    };
    assert(needed == clip(joined(parts, k).len() as int));
    needed = plus(needed, decimal_len(payload.len() as u64));
    assert(needed == clip(joined(parts, k + 1).len() as int));
    needed = plus(needed, 2);
    assert(needed == clip(joined(parts, k + 2).len() as int));
    needed = plus(needed, payload.len());
    assert(needed == clip(joined(parts, k + 3).len() as int));
    needed = plus(needed, 2);
    assert(needed == clip(joined(parts, k + 4).len() as int));
    Err(EmitError::BufferTooSmall { needed, have: out.len() })
}

/// Writes the parts of the frame one by one.
#[verifier::rlimit(40)]
fn put_msg(
    out: &mut [u8],
    subject: &[u8],
    sid: &[u8],
    reply_to: Option<&[u8]>,
    payload: &[u8],
) -> (r: Result<usize, EmitError>)
    ensures
        wrote(
            old(out)@,
            pieces(
                FrameView::Msg {
                    subject: subject@,
                    sid: sid@,
                    reply_to: frame::opt_bytes(reply_to),
                    payload: payload@,
                },
            ),
            final(out)@,
            r,
        ),
{
    assert(vstd::string::is_ascii("MSG ")) by {
        reveal_strlit("MSG ");
    }
    let ghost before = out@;
    let ghost parts = pieces(
        FrameView::Msg {
            subject: subject@,
            sid: sid@,
            reply_to: frame::opt_bytes(reply_to),
            payload: payload@,
        },
    );
    proof {
        assert(out.len() == before.len());
        lemma_run(before, parts);
    }
    let mut n: usize = 0;
    n = write_all(out, n, text("MSG "))?;
    assert(step(before, parts, out@, n as int, 1));
    n = write_all(out, n, subject)?;
    assert(step(before, parts, out@, n as int, 2));
    n = write_byte(out, n, SP)?;
    assert(step(before, parts, out@, n as int, 3));
    n = write_all(out, n, sid)?;
    assert(step(before, parts, out@, n as int, 4));
    n = write_byte(out, n, SP)?;
    assert(step(before, parts, out@, n as int, 5));
    if let Some(r) = reply_to {
        n = write_all(out, n, r)?;
        assert(step(before, parts, out@, n as int, 6));
        n = write_byte(out, n, SP)?;
        assert(step(before, parts, out@, n as int, 7));
    }
    let ghost k: int = if reply_to is Some { 7 } else { 5 };
    assert(step(before, parts, out@, n as int, k));
    n = write_decimal_u64(out, n, payload.len() as u64)?;
    assert(step(before, parts, out@, n as int, k + 1));
    n = write_crlf(out, n)?;
    assert(step(before, parts, out@, n as int, k + 2));
    n = write_all(out, n, payload)?;
    assert(step(before, parts, out@, n as int, k + 3));
    n = write_crlf(out, n)?;
    assert(step(before, parts, out@, n as int, k + 4));
    Ok(n)
}

/// Adds up lengths, up to what a machine word holds.
fn plus(a: usize, b: usize) -> (r: usize)
    ensures
        r == clip(a + b),
{
    a.saturating_add(b)
}

/// How many digits the decimal form of `value` has.
fn decimal_len(value: u64) -> (n: usize)
    ensures
        n == grammar::decimal(value as nat).len(),
{
    let mut n: usize = 1;
    let mut left: u64 = value;
    assert(pow10(0) == 1);
    assert(left * 1 == left);
    while left >= 10
        invariant
            n >= 1,
            n + grammar::decimal(left as nat).len() == grammar::decimal(value as nat).len() + 1,
            n <= U64_DIGITS_MAX,
            left * pow10((n - 1) as nat) <= value,
        decreases left,
    {
        proof {
            let power = pow10((n - 1) as nat);
            assert((left / 10) * (10 * power) <= left * power) by (nonlinear_arith);
            assert(10 * power <= (left / 10) * (10 * power)) by (nonlinear_arith)
                requires
                    left / 10 >= 1,
            ;
            lemma_u64_digits(n as nat);
        }
        left = left / 10;
        n += 1;
    }
    n
}

/// Writes a byte string at `pos`.
fn write_all(out: &mut [u8], pos: usize, src: &[u8]) -> (r: Result<usize, EmitError>)
    ensures
        puts(old(out)@, pos as int, src@, final(out)@, r),
{
    let have: usize = out.len();
    let end: usize = match pos.checked_add(src.len()) {
        Some(end) => end,
        None => return Err(EmitError::BufferTooSmall { needed: usize::MAX, have }),
    };
    if end > have {
        return Err(EmitError::BufferTooSmall { needed: end, have });
    }
    copy_into(out, pos, src);
    Ok(end)
}

/// Writes the line terminator at `pos`.
fn write_crlf(out: &mut [u8], pos: usize) -> (r: Result<usize, EmitError>)
    ensures
        puts(old(out)@, pos as int, grammar::crlf(), final(out)@, r),
{
    assert(vstd::string::is_ascii("\r\n") && bytes::ascii("\r\n") =~= grammar::crlf()) by {
        reveal_strlit("\r\n");
    }
    write_all(out, pos, text("\r\n"))
}

/// Writes a single byte at `pos`.
fn write_byte(out: &mut [u8], pos: usize, byte: u8) -> (r: Result<usize, EmitError>)
    ensures
        puts(old(out)@, pos as int, seq![byte], final(out)@, r),
{
    let have: usize = out.len();
    if pos >= have {
        return Err(EmitError::BufferTooSmall { needed: pos.saturating_add(1), have });
    }
    let ghost before = out@;
    out[pos] = byte;
    assert(out@ =~= overwritten(before, pos as int, seq![byte]));
    Ok(pos + 1)
}

/// The first `len` of `tmp`, last one first.
spec fn reversed(tmp: Seq<u8>, len: int) -> Seq<u8> {
    Seq::new(len as nat, |i: int| tmp[len - 1 - i])
}

/// Ten to the power `n`.
spec fn pow10(n: nat) -> nat
    decreases n,
{
    if n == 0 {
        1
    } else {
        10 * pow10((n - 1) as nat)
    }
}

/// Ten to a power that a `u64` can hold is below the twentieth.
proof fn lemma_u64_digits(n: nat)
    requires
        pow10(n) <= u64::MAX,
    ensures
        n < U64_DIGITS_MAX,
{
    if n >= U64_DIGITS_MAX {
        lemma_pow10_grows(20, n);
        assert(pow10(20) > u64::MAX) by {
            reveal_with_fuel(pow10, 21);
        }
    }
}

proof fn lemma_pow10_grows(m: nat, n: nat)
    requires
        m <= n,
    ensures
        pow10(m) <= pow10(n),
    decreases n,
{
    if m < n {
        lemma_pow10_grows(m, (n - 1) as nat);
    }
}

/// Writes the canonical decimal form of `value` at `pos`.
pub fn write_decimal_u64(out: &mut [u8], pos: usize, value: u64) -> (r: Result<usize, EmitError>)
    ensures
        puts(old(out)@, pos as int, grammar::decimal(value as nat), final(out)@, r),
{
    let mut tmp: [u8; 20] = [0;20];
    let mut len: usize = 0;
    let mut left: u64 = value;
    let ghost code = grammar::decimal(value as nat);
    if left == 0 {
        tmp[0] = ZERO;
        len = 1;
    } else {
        assert(code =~= grammar::decimal(left as nat) + reversed(tmp@, 0));
        assert(pow10(0) == 1);
        while left > 0
            invariant
                len <= U64_DIGITS_MAX,
                tmp@.len() == U64_DIGITS_MAX,
                left > 0 ==> left * pow10(len as nat) <= value,
                left > 0 ==> code == grammar::decimal(left as nat) + reversed(tmp@, len as int),
                left == 0 ==> code == reversed(tmp@, len as int),
            decreases left,
        {
            let ghost digits = reversed(tmp@, len as int);
            let ghost power = pow10(len as nat);
            proof {
                assert(power <= left * power) by (nonlinear_arith)
                    requires
                        left >= 1,
                ;
                lemma_u64_digits(len as nat);
                assert((left / 10) * (10 * power) <= left * power) by (nonlinear_arith);
            }
            let digit: u8 = ZERO + (left % 10) as u8;
            tmp[len] = digit;
            assert(reversed(tmp@, len + 1) =~= seq![digit] + digits);
            assert(code =~= (if left < 10 {
                seq![digit] + digits
            } else {
                grammar::decimal((left / 10) as nat) + (seq![digit] + digits)
            }));
            left = left / 10;
            len += 1;
        }
    }
    assert(code =~= reversed(tmp@, len as int));
    let have: usize = out.len();
    let end: usize = match pos.checked_add(len) {
        Some(end) => end,
        None => return Err(EmitError::BufferTooSmall { needed: usize::MAX, have }),
    };
    if end > have {
        return Err(EmitError::BufferTooSmall { needed: end, have });
    }
    let ghost before = out@;
    for i in 0..len
        invariant
            len <= tmp@.len(),
            pos + len == end,
            end <= out@.len(),
            out@.len() == before.len(),
            code == reversed(tmp@, len as int),
            forall|j: int| pos <= j < pos + i ==> #[trigger] out@[j] == code[j - pos],
            forall|j: int|
                0 <= j < before.len() && !(pos <= j < pos + i) ==> #[trigger] out@[j] == before[j],
    {
        out[pos + i] = tmp[len - 1 - i];
    }
    assert(out@ =~= overwritten(before, pos as int, code));
    Ok(end)
}

/// What writing one part at a place does: where it fits, it stands there, all
/// before and behind it is untouched, and the place behind it is returned;
/// where it does not, nothing is written.
pub proof fn law_parts_are_put_in_place(
    before: Seq<u8>,
    pos: int,
    part: Seq<u8>,
    after: Seq<u8>,
    r: Result<usize, EmitError>,
)
    requires
        0 <= pos <= before.len() <= usize::MAX,
        puts(before, pos, part, after, r),
    ensures
        after.len() == before.len(),
        r is Ok == (pos + part.len() <= before.len()),
        r matches Ok(end) ==> {
            &&& end == pos + part.len()
            &&& after.subrange(pos, end as int) == part
            &&& after.take(pos) == before.take(pos)
            &&& after.skip(end as int) == before.skip(end as int)
        },
        r is Err ==> after == before,
{
    if pos + part.len() <= before.len() {
        let end = pos + part.len();
        assert(after.subrange(pos, end) =~= part);
        assert(after.take(pos) =~= before.take(pos));
        assert(after.skip(end) =~= before.skip(end));
    }
}

/// Where a frame does not fit, what has been written is a beginning of it, and
/// what is behind that is untouched.
pub proof fn law_a_failed_emit_writes_a_beginning(
    before: Seq<u8>,
    frame: FrameView,
    after: Seq<u8>,
    r: Result<usize, EmitError>,
)
    requires
        emits(before, frame, after, r),
        r is Err,
    ensures
        exists|n: int|
            0 <= n <= before.len() && n <= encoded(frame).len() && after == #[trigger] encoded(
                frame,
            ).take(n) + before.skip(n),
{
    let parts = pieces(frame);
    let k = choose|k: int| #[trigger]
        stops_at(parts, before.len() as int, k) && after == joined(parts, k) + before.skip(
            joined(parts, k).len() as int,
        );
    lemma_joined_begins(parts, k, parts.len() as int);
    let n = joined(parts, k).len() as int;
    assert(after == encoded(frame).take(n) + before.skip(n));
}

proof fn lemma_joined_begins(parts: Seq<Seq<u8>>, k: int, n: int)
    requires
        0 <= k <= n,
    ensures
        joined(parts, k).len() <= joined(parts, n).len(),
        joined(parts, k) == joined(parts, n).take(joined(parts, k).len() as int),
    decreases n,
{
    if k < n {
        lemma_joined_begins(parts, k, n - 1);
        assert(joined(parts, k) =~= joined(parts, n).take(joined(parts, k).len() as int));
    } else {
        assert(joined(parts, k) =~= joined(parts, n).take(joined(parts, k).len() as int));
    }
}

} // verus!
