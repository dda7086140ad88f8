use aulon::handoff::{Attempt, Decision, Turn};

#[test]
fn an_attempt_stands_at_its_slot() {
    let a = Attempt::new(13, 7);
    assert_eq!(a.pos, 13);
    assert_eq!(a.place, 5);
}

#[test]
fn a_ready_slot_is_claimed() {
    assert_eq!(Attempt::new(13, 7).decide(13), Decision::Claim { next: 14 });
    assert_eq!(
        Attempt::new(usize::MAX, 7).decide(usize::MAX),
        Decision::Claim { next: 0 }
    );
}

#[test]
fn a_slot_of_the_round_before_means_full() {
    assert_eq!(Attempt::new(13, 7).decide(6), Decision::Full);
    assert_eq!(Attempt::new(3, 7).decide(usize::MAX - 3), Decision::Full);
}

#[test]
fn a_slot_that_went_on_means_another_look_at_the_tail() {
    assert_eq!(Attempt::new(13, 7).decide(14), Decision::Reload);
    assert_eq!(Attempt::new(usize::MAX, 7).decide(0), Decision::Reload);
}

#[test]
fn the_consumer_is_kicked_when_the_head_has_not_moved() {
    assert!(Attempt::new(13, 7).was_empty(13));
    assert!(!Attempt::new(13, 7).was_empty(12));
    assert!(!Attempt::new(13, 7).was_empty(14));
}

#[test]
fn a_turn_knows_the_marks_of_its_slot() {
    let t = Turn::new(13, 7);
    assert_eq!((t.pos, t.place, t.next, t.release), (13, 5, 14, 21));
    assert!(t.may_take(14));
    assert!(!t.may_take(13));
    let t = Turn::new(usize::MAX, 7);
    assert_eq!((t.place, t.next, t.release), (7, 0, 7));
}

/// The ring as the two sides see it, for one thread at a time.
struct Ring {
    seqs: Vec<usize>,
    vals: Vec<Option<u32>>,
    tail: usize,
    head: usize,
}

impl Ring {
    fn new(cap: usize, start: usize) -> Ring {
        let mut seqs = vec![0; cap];
        for k in 0..cap {
            let pos = start.wrapping_add(k);
            seqs[pos % cap] = pos;
        }
        Ring {
            seqs,
            vals: vec![None; cap],
            tail: start,
            head: start,
        }
    }

    fn mask(&self) -> usize {
        self.seqs.len() - 1
    }
}

#[test]
fn interleaved_producers_keep_their_order() {
    // Start next to the end of the words, so that the counters wrap.
    let mut r = Ring::new(4, usize::MAX - 1);
    let a = Attempt::new(r.tail, r.mask());
    let b = Attempt::new(r.tail, r.mask());
    // Both have seen the same tail; the first exchange wins.
    let Decision::Claim { next: a_next } = a.decide(r.seqs[a.place]) else {
        panic!("ready");
    };
    let Decision::Claim { .. } = b.decide(r.seqs[b.place]) else {
        panic!("ready");
    };
    assert_eq!(r.tail, a.pos);
    r.tail = a_next;
    // The second has to go on at the tail that it observes.
    assert_ne!(r.tail, b.pos);
    let b = Attempt::new(r.tail, r.mask());
    let Decision::Claim { next: b_next } = b.decide(r.seqs[b.place]) else {
        panic!("ready");
    };
    r.tail = b_next;
    // The second publishes first: the consumer has nothing to take yet.
    r.vals[b.place] = Some(2);
    r.seqs[b.place] = b_next;
    assert!(!b.was_empty(r.head));
    let t = Turn::new(r.head, r.mask());
    assert!(!t.may_take(r.seqs[t.place]));
    // The first publishes, and kicks.
    r.vals[a.place] = Some(1);
    r.seqs[a.place] = a_next;
    assert!(a.was_empty(r.head));
    for want in [1, 2] {
        let t = Turn::new(r.head, r.mask());
        assert!(t.may_take(r.seqs[t.place]));
        assert_eq!(r.vals[t.place].take(), Some(want));
        r.seqs[t.place] = t.release;
        r.head = t.next;
    }
    let t = Turn::new(r.head, r.mask());
    assert!(!t.may_take(r.seqs[t.place]));
}
