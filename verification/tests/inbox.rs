use aulon::handoff::{Attempt, Decision, Turn};
use aulon::shard_inbox::ring_capacity;
use aulon::{PublishedFrame, ShardInbox, ShardInboxFull};
use loom::sync::atomic::{fence, AtomicBool, AtomicU32, AtomicUsize, Ordering};
use loom::sync::Arc;
use std::collections::HashSet;

#[test]
fn capacity_rounds_up_to_power_of_two() {
    assert_eq!(ShardInbox::<u32>::with_capacity(1).capacity(), 2);
    assert_eq!(ShardInbox::<u32>::with_capacity(3).capacity(), 4);
    assert_eq!(ShardInbox::<u32>::with_capacity(64).capacity(), 64);
    assert_eq!(ShardInbox::<u32>::with_capacity(65).capacity(), 128);
}

#[test]
fn push_pop_single_thread_fifo() {
    let mut q = ShardInbox::<u32>::with_capacity(4);
    for i in 0..4 {
        assert!(q.push(i).is_ok(), "slot {i}");
    }
    assert!(matches!(q.push(99), Err(ShardInboxFull(99))));
    for i in 0..4 {
        assert_eq!(q.pop(), Some(i));
    }
    assert!(q.pop().is_none());
    assert!(q.is_empty());
}

#[test]
fn push_returns_was_empty_flag() {
    let mut q = ShardInbox::<u32>::with_capacity(4);
    assert!(q.push(1).unwrap(), "first push: was empty");
    assert!(!q.push(2).unwrap(), "second push: not empty");
    assert_eq!(q.pop(), Some(1));
    // Now there's still 1 element; next push is non-empty insert.
    assert!(!q.push(3).unwrap());
    assert_eq!(q.pop(), Some(2));
    assert_eq!(q.pop(), Some(3));
    assert!(q.push(4).unwrap(), "after drain: empty again");
}

#[test]
fn full_then_drain_then_refill() {
    let mut q = ShardInbox::<u32>::with_capacity(2);
    assert!(q.push(1).is_ok());
    assert!(q.push(2).is_ok());
    assert!(q.push(3).is_err());
    assert_eq!(q.pop(), Some(1));
    assert!(q.push(3).is_ok());
    assert_eq!(q.pop(), Some(2));
    assert_eq!(q.pop(), Some(3));
    assert!(q.pop().is_none());
}

#[test]
fn drop_drains_remaining_elements() {
    // Use Arc to confirm refcount returns to 1 after drop.
    let payload = std::sync::Arc::new(PublishedFrame {
        subject: Box::from(&b"x"[..]),
        reply_to: None,
        payload: Box::from(&b"y"[..]),
    });
    let mut q = ShardInbox::<std::sync::Arc<PublishedFrame>>::with_capacity(4);
    for _ in 0..3 {
        q.push(std::sync::Arc::clone(&payload)).unwrap();
    }
    assert_eq!(std::sync::Arc::strong_count(&payload), 4);
    drop(q);
    assert_eq!(std::sync::Arc::strong_count(&payload), 1);
}

#[test]
fn the_ring_goes_round_many_times() {
    let mut q = ShardInbox::<u32>::with_capacity(4);
    let mut next_in: u32 = 0;
    let mut next_out: u32 = 0;
    for round in 0..1000u32 {
        for _ in 0..(round % 5) {
            if q.push(next_in).is_ok() {
                next_in += 1;
            } else {
                assert_eq!(next_in - next_out, 4);
            }
        }
        for _ in 0..(round % 3) {
            match q.pop() {
                Some(v) => {
                    assert_eq!(v, next_out);
                    next_out += 1;
                }
                None => assert_eq!(next_in, next_out),
            }
        }
        assert_eq!(q.is_empty(), next_in == next_out);
    }
}

/// The ring with atomic words, driven by the decisions of the two sides.
struct SharedRing {
    mask: usize,
    seqs: Vec<AtomicUsize>,
    vals: Vec<AtomicU32>,
    tail: AtomicUsize,
    head: AtomicUsize,
}

impl SharedRing {
    fn with_capacity(requested: usize) -> SharedRing {
        let cap = ring_capacity(requested);
        SharedRing {
            mask: cap - 1,
            seqs: (0..cap).map(AtomicUsize::new).collect(),
            vals: (0..cap).map(|_| AtomicU32::new(0)).collect(),
            tail: AtomicUsize::new(0),
            head: AtomicUsize::new(0),
        }
    }

    fn push(&self, value: u32) -> Result<bool, ShardInboxFull<u32>> {
        let mut attempt = Attempt::new(self.tail.load(Ordering::Relaxed), self.mask);
        loop {
            let seq = self.seqs[attempt.place].load(Ordering::Acquire);
            match attempt.decide(seq) {
                Decision::Claim { next } => {
                    let claimed = self.tail.compare_exchange(
                        attempt.pos,
                        next,
                        Ordering::Relaxed,
                        Ordering::Relaxed,
                    );
                    match claimed {
                        Ok(_) => {
                            // Nobody else holds the slot: it is empty.
                            let held = self.vals[attempt.place].load(Ordering::Relaxed);
                            assert_eq!(held, 0, "slot is held by another thread");
                            self.vals[attempt.place].store(value, Ordering::Relaxed);
                            self.seqs[attempt.place].store(next, Ordering::Release);
                            fence(Ordering::SeqCst);
                            return Ok(attempt.was_empty(self.head.load(Ordering::Acquire)));
                        }
                        Err(observed) => attempt = Attempt::new(observed, self.mask),
                    }
                }
                Decision::Full => return Err(ShardInboxFull(value)),
                Decision::Reload => {
                    attempt = Attempt::new(self.tail.load(Ordering::Relaxed), self.mask);
                }
            }
        }
    }

    fn pop(&self) -> Option<u32> {
        let turn = Turn::new(self.head.load(Ordering::Relaxed), self.mask);
        fence(Ordering::SeqCst);
        if !turn.may_take(self.seqs[turn.place].load(Ordering::Acquire)) {
            return None;
        }
        let value = self.vals[turn.place].load(Ordering::Relaxed);
        assert_ne!(value, 0, "a published slot holds its value");
        self.vals[turn.place].store(0, Ordering::Relaxed);
        self.seqs[turn.place].store(turn.release, Ordering::Release);
        self.head.store(turn.next, Ordering::Release);
        Some(value)
    }
}

#[test]
fn producer_producer_race() {
    loom::model(|| {
        let inbox = Arc::new(SharedRing::with_capacity(4));

        let p1 = {
            let inbox = Arc::clone(&inbox);
            loom::thread::spawn(move || {
                inbox.push(10).expect("inbox capacity");
            })
        };
        let p2 = {
            let inbox = Arc::clone(&inbox);
            loom::thread::spawn(move || {
                inbox.push(20).expect("inbox capacity");
            })
        };

        p1.join().expect("p1 join");
        p2.join().expect("p2 join");

        // Drain on the main thread after both producers have published.
        let mut seen: HashSet<u32> = HashSet::new();
        while let Some(v) = inbox.pop() {
            assert!(seen.insert(v), "duplicate element popped: {v}");
        }
        assert_eq!(seen.len(), 2);
        assert!(seen.contains(&10));
        assert!(seen.contains(&20));
    });
}

#[test]
fn producer_consumer_race() {
    loom::model(|| {
        let inbox = Arc::new(SharedRing::with_capacity(4));

        let producer = {
            let inbox = Arc::clone(&inbox);
            loom::thread::spawn(move || {
                inbox.push(1).expect("inbox capacity");
                inbox.push(2).expect("inbox capacity");
            })
        };

        // Consumer attempts up to 3 pops; whichever arrive arrive,
        // remainder drains after join.
        let mut seen: HashSet<u32> = HashSet::new();
        for _ in 0..3 {
            if let Some(v) = inbox.pop() {
                assert!(seen.insert(v), "duplicate element popped: {v}");
            }
        }
        producer.join().expect("producer join");
        while let Some(v) = inbox.pop() {
            assert!(seen.insert(v), "duplicate element popped after join: {v}");
        }

        assert_eq!(seen.len(), 2, "saw {seen:?}");
        assert!(seen.contains(&1));
        assert!(seen.contains(&2));
    });
}

#[test]
fn elements_of_one_producer_keep_their_order_under_races() {
    loom::model(|| {
        let inbox = Arc::new(SharedRing::with_capacity(2));
        let producer = {
            let inbox = Arc::clone(&inbox);
            loom::thread::spawn(move || {
                let mut pushed: Vec<u32> = Vec::new();
                for v in [1u32, 2, 3] {
                    if inbox.push(v).is_ok() {
                        pushed.push(v);
                    }
                }
                pushed
            })
        };
        let mut popped: Vec<u32> = Vec::new();
        for _ in 0..2 {
            if let Some(v) = inbox.pop() {
                popped.push(v);
            }
        }
        let pushed = producer.join().expect("producer join");
        while let Some(v) = inbox.pop() {
            popped.push(v);
        }
        assert_eq!(popped, pushed);
    });
}

#[test]
fn a_sleeping_consumer_is_kicked() {
    loom::model(|| {
        let inbox = Arc::new(SharedRing::with_capacity(2));
        let kicked = Arc::new(AtomicBool::new(false));
        inbox.push(1).expect("inbox capacity");
        let producer = {
            let inbox = Arc::clone(&inbox);
            let kicked = Arc::clone(&kicked);
            loom::thread::spawn(move || {
                if inbox.push(2).expect("inbox capacity") {
                    kicked.store(true, Ordering::SeqCst);
                }
            })
        };
        // The consumer drains until it finds nothing, and then sleeps.
        while inbox.pop().is_some() {}
        producer.join().expect("producer join");
        if inbox.pop().is_some() {
            assert!(kicked.load(Ordering::SeqCst), "an element lies unnoticed");
        }
    });
}
