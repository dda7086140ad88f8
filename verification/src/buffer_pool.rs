//! Per-core fixed-size buffer pool, registered with `io_uring`.
//!
//! Thin wrapper around [`tokio_uring::buf::fixed::FixedBufPool`] that pins
//! down the policy: one pool per runtime thread, fixed buffer size, registered
//! against the local ring at startup. The wrapper exists so there is a single
//! named place for sizing and capacity decisions; the heavy lifting is
//! upstream.

use tokio_uring::buf::fixed::{FixedBuf, FixedBufPool};
use vstd::prelude::*;

verus! {

/// Default buffer size (one page).
pub const DEFAULT_BUFFER_SIZE: usize = 4096;

/// Default number of buffers per pool.
pub const DEFAULT_POOL_CAPACITY: usize = 256;

/// How many buffers a pool can manage: the kernel takes no more in one
/// registration.
pub const MAX_BUFFERS: usize = 1024;

/// A buffer that is checked out of a pool.
#[verifier::external_type_specification]
#[verifier::external_body]
pub struct ExFixedBuf(FixedBuf);

/// The size of a buffer: what `bytes_total` of `FixedBuf` returns.
pub uninterp spec fn total_bytes(buf: FixedBuf) -> nat;

/// A handle to a pool of buffers. Registration with the runtime, and waiting
/// for a buffer, go through the handle itself.
#[verifier::external_body]
pub struct PoolHandle(pub FixedBufPool<Vec<u8>>);

/// How many buffers the pool was made with.
pub uninterp spec fn managed(pool: PoolHandle) -> nat;

impl PoolHandle {
    /// A pool of these buffers, by `FixedBufPool::new`, which takes in all of
    /// them, up to what the kernel takes. Which of them are free changes
    /// behind the handle, as buffers that were checked out are dropped, so
    /// nothing is claimed of that; nor of their sizes, which are the
    /// capacities that the allocator gave.
    #[verifier::external_body]
    fn new(bufs: Vec<Vec<u8>>) -> (r: Self)
        requires
            bufs@.len() <= MAX_BUFFERS,
        ensures
            managed(r) == bufs@.len(),
    {
        PoolHandle(FixedBufPool::new(bufs))
    }

    /// Checks out a free buffer of `cap` bytes, by `FixedBufPool::try_next`,
    /// which keeps its free buffers by their size and hands out one that has
    /// exactly the size asked for. A pool that was made without buffers has
    /// none to hand out, ever. Of any other, whether one is free depends on
    /// what is checked out at the time.
    #[verifier::external_body]
    fn try_next(&self, cap: usize) -> (r: Option<FixedBuf>)
        ensures
            r matches Some(buf) ==> total_bytes(buf) == cap,
            managed(*self) == 0 ==> r is None,
    {
        self.0.try_next(cap)
    }

    /// Another handle to the same pool, by `FixedBufPool::clone`.
    #[verifier::external_body]
    fn another(&self) -> (r: Self)
        ensures
            managed(r) == managed(*self),
    {
        PoolHandle(self.0.clone())
    }
}

/// Per-core pool of `io_uring`-registered fixed-size buffers.
///
/// Cloning a `BufferPool` produces a new handle to the same underlying
/// pool. Each runtime thread should construct exactly one pool and register
/// it before any I/O is issued through it.
pub struct BufferPool {
    inner: PoolHandle,
    buffer_size: usize,
    capacity: usize,
}

impl BufferPool {
    /// How large the buffers are.
    pub closed spec fn size(self) -> nat {
        self.buffer_size as nat
    }

    /// How many buffers there are.
    pub closed spec fn count(self) -> nat {
        self.capacity as nat
    }

    /// The handle to the pool itself.
    pub closed spec fn pool(self) -> PoolHandle {
        self.inner
    }

    /// Allocates `capacity` buffers of `buffer_size` bytes each, up to what the
    /// kernel takes. Buffers are uninitialised vectors with the requested capacity (and length 0); the
    /// kernel writes into them during `read_fixed` operations.
    ///
    /// This does not register the buffers with `io_uring`.
    #[must_use]
    pub fn new(capacity: usize, buffer_size: usize) -> (r: Self)
        requires
            buffer_size <= isize::MAX,
        ensures
            r.count() == capacity,
            r.size() == buffer_size,
            managed(r.pool()) == (if capacity < MAX_BUFFERS {
                capacity
            } else {
                MAX_BUFFERS
            }),
    {
        let wanted: usize = if capacity < MAX_BUFFERS {
            capacity
        } else {
            MAX_BUFFERS
        };
        let mut bufs: Vec<Vec<u8>> = Vec::new();
        let mut i: usize = 0;
        while i < wanted
            invariant
                i <= wanted,
                bufs@.len() == i,
            decreases wanted - i,
        {
            bufs.push(Vec::with_capacity(buffer_size));
            i += 1;
        }
        Self { inner: PoolHandle::new(bufs), buffer_size, capacity }
    }

    /// Acquires a buffer of the pool's standard size, or returns `None` if
    /// the pool is exhausted.
    ///
    /// Dropping the buffer returns it to the pool automatically. A pool
    /// without buffers is always exhausted; whether another one is depends on
    /// which of its buffers are held at the time.
    #[must_use]
    pub fn acquire(&self) -> (r: Option<FixedBuf>)
        ensures
            r matches Some(buf) ==> total_bytes(buf) == self.size(),
            managed(self.pool()) == 0 ==> r is None,
    {
        self.inner.try_next(self.buffer_size)
    }

    /// The handle, for registration with the runtime and for waiting.
    pub fn handle(&self) -> (r: &PoolHandle)
        ensures
            *r == self.pool(),
    {
        &self.inner
    }

    /// Buffer size in bytes.
    #[must_use]
    pub fn buffer_size(&self) -> (n: usize)
        ensures
            n == self.size(),
    {
        self.buffer_size
    }

    /// Pool capacity (number of buffers managed).
    #[must_use]
    pub fn capacity(&self) -> (n: usize)
        ensures
            n == self.count(),
    {
        self.capacity
    }
}

impl Clone for BufferPool {
    fn clone(&self) -> (r: Self)
        ensures
            r.size() == self.size(),
            r.count() == self.count(),
            managed(r.pool()) == managed(self.pool()),
    {
        BufferPool {
            inner: self.inner.another(),
            buffer_size: self.buffer_size,
            capacity: self.capacity,
        }
    }
}

} // verus!
