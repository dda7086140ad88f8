//! Typestate-encoded connection lifecycle.
//!
//! A [`Connection`] is in one of the states [`Active`] and [`Closing`], as a
//! type parameter: reads, writes and shutdown exist only while it is active.
//! A shutdown consumes the connection, so it cannot happen twice, and nothing
//! can be written behind it.

use crate::sealed::Sealed;
use std::marker::PhantomData;
use vstd::prelude::*;

verus! {

/// Marker trait for connection lifecycle states.
///
/// Sealed: external code cannot define new states.
pub trait State: Sealed + 'static {

}

/// Connection has completed any handshake and is ready for application
/// traffic. All read and write methods live here.
#[derive(Debug)]
pub struct Active(());

impl Sealed for Active {

}

impl State for Active {

}

/// Connection is winding down. The local side has signalled close; the
/// stream is held only long enough for the kernel to deliver FIN and any
/// queued bytes to the peer. No reads or writes are allowed.
#[derive(Debug)]
pub struct Closing(());

impl Sealed for Closing {

}

impl State for Closing {

}

/// A connection over the stream `C` in lifecycle state `S`.
///
/// An active connection carries a rented buffer `B`; transitioning to
/// [`Closing`] returns that buffer to the caller for release back into its
/// pool.
pub struct Connection<S: State, C, B> {
    stream: C,
    buffer: Option<B>,
    _state: PhantomData<S>,
}

/// Outcome of a single read.
#[derive(Debug, Clone, Copy, PartialEq, Eq, Structural)]
pub enum ReadOutcome {
    /// `n` bytes were read into the connection's buffer; `n > 0`.
    Bytes(usize),
    /// The peer half-closed (read returned 0).
    PeerClosed,
}

/// What a read that returned `n` bytes means.
pub open spec fn outcome_of(n: usize) -> ReadOutcome {
    if n == 0 {
        ReadOutcome::PeerClosed
    } else {
        ReadOutcome::Bytes(n)
    }
}

impl<S: State, C, B> Connection<S, C, B> {
    /// The underlying stream.
    pub closed spec fn socket(self) -> C {
        self.stream
    }

    /// The rented buffer, while the connection holds it.
    pub closed spec fn held(self) -> Option<B> {
        self.buffer
    }
}

impl<C, B> Connection<Active, C, B> {
    /// Wraps an accepted stream with the buffer the connection will use for
    /// the duration of its `Active` lifetime.
    #[must_use]
    pub fn new(stream: C, buffer: B) -> (r: Self)
        ensures
            r.socket() == stream,
            r.held() == Some(buffer),
    {
        Self { stream, buffer: Some(buffer), _state: PhantomData }
    }

    /// Whether the connection holds its buffer, as it does between operations.
    #[must_use]
    pub fn holds_buffer(&self) -> (r: bool)
        ensures
            r == (self.held() is Some),
    {
        self.buffer.is_some()
    }

    /// Hands the buffer out for one read or write on the stream, which takes
    /// its buffer by value. It comes back with [`Self::finish_read`] or
    /// [`Self::finish_write`]; between operations the connection holds it.
    pub fn lend(&mut self) -> (r: (&mut C, B))
        requires
            old(self).held() is Some,
        ensures
            r.1 == old(self).held()->0,
            *r.0 == old(self).socket(),
            final(self).socket() == *final(r.0),
            final(self).held() is None,
    {
        let buffer = self.buffer.take().unwrap();
        (&mut self.stream, buffer)
    }

    /// Takes the buffer back from a read and tells what the read meant.
    pub fn finish_read<E>(&mut self, result: Result<usize, E>, returned: B) -> (r: Result<
        ReadOutcome,
        E,
    >)
        requires
            old(self).held() is None,
        ensures
            final(self).socket() == old(self).socket(),
            final(self).held() == Some(returned),
            match result {
                Ok(n) => r == Ok::<ReadOutcome, E>(outcome_of(n)),
                Err(e) => r == Err::<ReadOutcome, E>(e),
            },
    {
        self.buffer = Some(returned);
        match result {
            Ok(n) => if n == 0 {
                Ok(ReadOutcome::PeerClosed)
            } else {
                Ok(ReadOutcome::Bytes(n))
            },
            Err(e) => Err(e),
        }
    }

    /// Takes the buffer back from a write.
    pub fn finish_write<E>(&mut self, result: Result<usize, E>, returned: B) -> (r: Result<(), E>)
        requires
            old(self).held() is None,
        ensures
            final(self).socket() == old(self).socket(),
            final(self).held() == Some(returned),
            match result {
                Ok(_) => r == Ok::<(), E>(()),
                Err(e) => r == Err::<(), E>(e),
            },
    {
        self.buffer = Some(returned);
        match result {
            Ok(_) => Ok(()),
            Err(e) => Err(e),
        }
    }

    /// Transitions to [`Closing`], handing the rented buffer back to the
    /// caller so it can be released to the owning pool.
    #[must_use]
    pub fn shutdown(self) -> (r: (Connection<Closing, C, B>, B))
        requires
            self.held() is Some,
        ensures
            r.0.socket() == self.socket(),
            r.0.held() is None,
            r.1 == self.held()->0,
    {
        let buffer = self.buffer.unwrap();
        let next = Connection { stream: self.stream, buffer: None, _state: PhantomData };
        (next, buffer)
    }
}

/// A read of no bytes means that the peer closed; any other brings as many
/// bytes as it says.
pub proof fn law_what_reads_mean(n: usize)
    ensures
        n == 0 <==> outcome_of(n) is PeerClosed,
        n > 0 ==> outcome_of(n) == ReadOutcome::Bytes(n),
{
}

} // verus!
