use aulon::sid_map::SidMap;
use aulon::{BufferPool, Connection, ReadOutcome, DEFAULT_BUFFER_SIZE, DEFAULT_POOL_CAPACITY};
use tokio_uring::buf::BoundedBuf;

#[test]
fn capacity_and_buffer_size_are_recorded() {
    let pool = BufferPool::new(8, 256);
    assert_eq!(pool.capacity(), 8);
    assert_eq!(pool.buffer_size(), 256);
}

#[test]
fn acquire_before_registration_succeeds() {
    // `try_next` only walks the pool's internal free list and does not
    // touch the runtime context; this confirms that constructing the
    // wrapper outside a tokio-uring runtime is sound.
    let pool = BufferPool::new(2, 64);
    let a = pool.acquire().expect("first acquire");
    let b = pool.acquire().expect("second acquire");
    assert!(pool.acquire().is_none(), "pool should be exhausted");
    drop(a);
    let _c = pool.acquire().expect("after drop, slot is free");
    drop(b);
}

#[test]
fn buffers_have_the_size_of_the_pool() {
    let pool = BufferPool::new(1, DEFAULT_BUFFER_SIZE);
    let buf = pool.acquire().unwrap();
    assert_eq!(buf.bytes_total(), 4096);
    assert_eq!(DEFAULT_POOL_CAPACITY, 256);
}

#[test]
fn a_clone_shares_the_buffers() {
    let pool = BufferPool::new(1, 64);
    let other = pool.clone();
    assert_eq!(other.capacity(), 1);
    assert_eq!(other.buffer_size(), 64);
    let held = other.acquire();
    assert!(held.is_some());
    assert!(pool.acquire().is_none());
}

#[test]
fn a_pool_without_buffers_has_none_to_give() {
    let pool = BufferPool::new(0, 64);
    assert!(pool.acquire().is_none());
    assert!(pool.clone().acquire().is_none());
}

#[test]
fn a_pool_manages_no_more_than_the_kernel_takes() {
    let pool = BufferPool::new(usize::MAX, 16);
    assert_eq!(pool.capacity(), usize::MAX);
    let mut held = Vec::new();
    while let Some(buf) = pool.acquire() {
        held.push(buf);
    }
    assert_eq!(held.len(), 1024);
}

#[test]
fn a_connection_lends_its_buffer_and_gets_it_back() {
    let mut c = Connection::new("stream", vec![1u8, 2]);
    assert!(c.holds_buffer());
    let (stream, buf) = c.lend();
    assert_eq!(*stream, "stream");
    assert_eq!(buf, [1, 2]);
    assert_eq!(
        c.finish_read::<()>(Ok(2), vec![7u8]),
        Ok(ReadOutcome::Bytes(2))
    );
    let (_, buf) = c.lend();
    assert_eq!(buf, [7]);
    assert_eq!(c.finish_read::<()>(Ok(0), buf), Ok(ReadOutcome::PeerClosed));
    let (_, buf) = c.lend();
    assert_eq!(c.finish_read(Err("broken"), buf), Err("broken"));
    let (_, buf) = c.lend();
    assert_eq!(c.finish_write::<()>(Ok(1), buf), Ok(()));
    let (_, buf) = c.lend();
    assert_eq!(c.finish_write(Err("broken"), buf), Err("broken"));
    let (_closing, buf) = c.shutdown();
    assert_eq!(buf, [7]);
}

#[test]
fn a_sid_holds_one_subject_at_a_time() {
    let mut m = SidMap::new();
    assert_eq!(m.remove(b"1"), None);
    m.insert(b"1", b"foo");
    m.insert(b"2", b"bar");
    m.insert(b"1", b"baz");
    assert_eq!(m.remove(b"1").as_deref(), Some(&b"baz"[..]));
    assert_eq!(m.remove(b"1"), None);
    assert_eq!(m.remove(b"2").as_deref(), Some(&b"bar"[..]));
}
