//! The inbox shared between threads: what each side does step by step.
//!
//! Any number of producers and one consumer work on one ring at a time. A
//! producer loads the tail, compares the sequence number of its slot, claims
//! the position by a compare-and-exchange of the tail, fills the slot and
//! publishes it; then it loads the head and kicks the consumer if the head is
//! at its position. The consumer looks at the slot at the head, takes the
//! element, releases the slot for the next round and moves the head on. Where
//! it finds nothing it sleeps until it is kicked.
//!
//! [`Attempt`] and [`Turn`] decide for the two sides; the atomic operations
//! themselves are the caller's. [`Shared`] is the state that those operations
//! work on, one at a time, in whatever order the threads come to them. That
//! order is one for all threads: the caller puts a full fence between
//! publishing a slot and loading the head, and between moving the head on and
//! looking at the next slot. Positions are counted without end there; the
//! machine words hold them wrapped.

use crate::shard_inbox::{self, compare, SlotState};
use vstd::arithmetic::power2;
use vstd::prelude::*;

verus! {

/// What a producer does next, having seen the sequence number of its slot.
#[derive(Clone, Copy, Debug, PartialEq, Eq, Structural)]
pub enum Decision {
    /// Claim the position: exchange the tail from it to `next`. Once the slot
    /// is filled, `next` is also the sequence number that publishes it.
    Claim {
        /// The position behind.
        next: usize,
    },
    /// Give up: the ring is full.
    Full,
    /// Load the tail again: another producer has used the position.
    Reload,
}

/// One attempt of a producer to push at a position.
#[derive(Clone, Copy, Debug, PartialEq, Eq, Structural)]
pub struct Attempt {
    /// The position, as loaded from the tail.
    pub pos: usize,
    /// The slot of the position.
    pub place: usize,
}

/// Where a position stands in a ring of `mask + 1` slots.
fn place_of(pos: usize, mask: usize) -> (i: usize)
    requires
        mask < usize::MAX,
        power2::is_pow2(mask + 1),
    ensures
        i == pos as int % (mask + 1),
        i <= mask,
{
    proof {
        shard_inbox::lemma_mask_is_mod(pos, mask);
    }
    pos & mask
}

/// What a producer at `pos` does, having seen the sequence number `seq`, both
/// as the words hold them.
pub open spec fn decided(seq: int, pos: int) -> Decision {
    match shard_inbox::slot_state(seq, pos) {
        SlotState::Ready => Decision::Claim { next: shard_inbox::wrap(pos + 1) as usize },
        SlotState::Behind => Decision::Full,
        SlotState::Ahead => Decision::Reload,
    }
}

impl Attempt {
    /// The attempt at the position that the tail was seen at, in a ring of
    /// `mask + 1` slots.
    pub fn new(tail: usize, mask: usize) -> (r: Self)
        requires
            mask < usize::MAX,
            power2::is_pow2(mask + 1),
        ensures
            r.pos == tail,
            r.place == tail as int % (mask + 1),
            r.place <= mask,
    {
        Attempt { pos: tail, place: place_of(tail, mask) }
    }

    /// What to do, now that the slot's sequence number has been loaded.
    pub fn decide(&self, seq: usize) -> (r: Decision)
        ensures
            r == decided(seq as int, self.pos as int),
            r == (match shard_inbox::slot_state(seq as int, self.pos as int) {
                SlotState::Ready => Decision::Claim {
                    next: shard_inbox::wrap(self.pos + 1) as usize,
                },
                SlotState::Behind => Decision::Full,
                SlotState::Ahead => Decision::Reload,
            }),
    {
        proof {
            shard_inbox::lemma_wrap_cases(self.pos + 1);
        }
        match compare(seq, self.pos) {
            SlotState::Ready => Decision::Claim { next: self.pos.wrapping_add(1) },
            SlotState::Behind => Decision::Full,
            SlotState::Ahead => Decision::Reload,
        }
    }

    /// Whether the consumer has to be kicked, now that the slot has been
    /// published and the head has been loaded after that.
    pub fn was_empty(&self, head: usize) -> (r: bool)
        ensures
            r == (head == self.pos),
    {
        head == self.pos
    }
}

/// One turn of the consumer at the head.
#[derive(Clone, Copy, Debug, PartialEq, Eq, Structural)]
pub struct Turn {
    /// The position.
    pub pos: usize,
    /// The slot of the position.
    pub place: usize,
    /// The position behind.
    pub next: usize,
    /// The sequence number that releases the slot for the next round.
    pub release: usize,
}

impl Turn {
    /// The turn at the head of a ring of `mask + 1` slots.
    pub fn new(head: usize, mask: usize) -> (r: Self)
        requires
            mask < usize::MAX,
            power2::is_pow2(mask + 1),
        ensures
            r.pos == head,
            r.place == head as int % (mask + 1),
            r.place <= mask,
            r.next == shard_inbox::wrap(head + 1),
            r.release == shard_inbox::wrap(head + mask + 1),
    {
        proof {
            shard_inbox::lemma_wrap_cases(head + 1);
            shard_inbox::lemma_wrap_cases(head + mask);
            shard_inbox::lemma_wrap_cases(head + mask + 1);
        }
        Turn {
            pos: head,
            place: place_of(head, mask),
            next: head.wrapping_add(1),
            release: head.wrapping_add(mask).wrapping_add(1),
        }
    }

    /// Whether there is an element to take, now that the slot's sequence
    /// number has been loaded.
    pub fn may_take(&self, seq: usize) -> (r: bool)
        ensures
            r == (seq == self.next),
    {
        seq == self.next
    }
}

/// A producer between its claim and its publication.
pub enum Filling<T> {
    /// It has claimed its position and has yet to write this value.
    Claimed(T),
    /// The value is written; the slot has yet to be published.
    Written,
}

/// How far the consumer has come with the element at the head.
pub enum Taking<T> {
    /// It is at nothing.
    Idle,
    /// It has seen that the slot is published.
    Seen,
    /// It has moved the value out of the slot.
    Taken(T),
    /// It has released the slot and has yet to move the head on.
    Released(T),
}

/// What producers and consumer share, and how far each of them has come.
pub struct Shared<T> {
    /// How many slots there are.
    pub capacity: int,
    /// The sequence number of each slot.
    pub seqs: Seq<int>,
    /// The value in each slot.
    pub vals: Seq<Option<T>>,
    /// The position of the next claim.
    pub tail: int,
    /// The position of the next pop.
    pub head: int,
    /// The producers at work, by the position that each has claimed.
    pub filling: Map<int, Filling<T>>,
    /// The producers that have published and have yet to load the head, by
    /// position.
    pub loading: Set<int>,
    /// The consumer.
    pub taking: Taking<T>,
    /// The consumer found nothing and waits for a kick.
    pub asleep: bool,
    /// A kick has come that the consumer has not answered yet.
    pub kicked: bool,
    /// Every value pushed so far, in the order of the claims.
    pub pushed: Seq<T>,
    /// Every value popped so far, in order.
    pub popped: Seq<T>,
}

/// One atomic step of one thread.
pub enum Step<T> {
    /// A producer claims the position at the tail for a value.
    Claim(T),
    /// The producer of a position writes its value.
    Write(int),
    /// The producer of a position publishes its slot.
    Publish(int),
    /// The producer of a position loads the head, and kicks if it is there.
    LoadHead(int),
    /// The consumer sees that the slot at the head is published.
    See,
    /// The consumer moves the value out.
    Take,
    /// The consumer releases the slot.
    Release,
    /// The consumer moves the head on.
    Advance,
    /// The consumer finds nothing at the head and goes to sleep.
    Doze,
    /// The consumer answers a kick.
    Wake,
}

impl<T> Shared<T> {
    /// The slot of a position.
    pub open spec fn place(self, pos: int) -> int {
        pos % self.capacity
    }

    /// The first position whose slot has not been released.
    pub open spec fn unreleased(self) -> int {
        if self.taking is Released {
            self.head + 1
        } else {
            self.head
        }
    }

    /// An empty ring.
    pub open spec fn empty(capacity: int) -> Self {
        Shared {
            capacity,
            seqs: Seq::new(capacity as nat, |i: int| i),
            vals: Seq::new(capacity as nat, |i: int| None),
            tail: 0,
            head: 0,
            filling: Map::empty(),
            loading: Set::empty(),
            taking: Taking::Idle,
            asleep: false,
            kicked: false,
            pushed: Seq::empty(),
            popped: Seq::empty(),
        }
    }

    /// The consumer is about to look at the slot at the head.
    pub open spec fn looks(self) -> bool {
        self.taking is Idle && !self.asleep
    }

    /// The slot at the head is published.
    pub open spec fn published(self) -> bool {
        self.seqs[self.place(self.head)] == self.head + 1
    }

    /// The producer of the position at the head is still at work, or has yet
    /// to load the head.
    pub open spec fn kick_to_come(self) -> bool {
        self.filling.contains_key(self.head) || self.loading.contains(self.head)
    }

    /// The step can be taken.
    pub open spec fn enabled(self, step: Step<T>) -> bool {
        match step {
            Step::Claim(_) => self.seqs[self.place(self.tail)] == self.tail,
            Step::Write(p) => self.filling.contains_key(p) && self.filling[p] is Claimed,
            Step::Publish(p) => self.filling.contains_key(p) && self.filling[p] is Written,
            Step::LoadHead(p) => self.loading.contains(p),
            Step::See => self.looks() && self.published(),
            Step::Take => self.taking is Seen,
            Step::Release => self.taking is Taken,
            Step::Advance => self.taking is Released,
            Step::Doze => self.looks() && !self.published(),
            Step::Wake => self.asleep && self.kicked,
        }
    }

    /// The state after a step.
    pub open spec fn after(self, step: Step<T>) -> Self {
        match step {
            Step::Claim(v) => Shared {
                tail: self.tail + 1,
                filling: self.filling.insert(self.tail, Filling::Claimed(v)),
                pushed: self.pushed.push(v),
                ..self
            },
            Step::Write(p) => Shared {
                vals: self.vals.update(self.place(p), Some(self.filling[p]->Claimed_0)),
                filling: self.filling.insert(p, Filling::Written),
                ..self
            },
            Step::Publish(p) => Shared {
                seqs: self.seqs.update(self.place(p), p + 1),
                filling: self.filling.remove(p),
                loading: self.loading.insert(p),
                ..self
            },
            Step::LoadHead(p) => Shared {
                loading: self.loading.remove(p),
                kicked: self.kicked || self.head == p,
                ..self
            },
            Step::See => Shared { taking: Taking::Seen, ..self },
            Step::Take => Shared {
                vals: self.vals.update(self.place(self.head), None),
                taking: Taking::Taken(self.vals[self.place(self.head)]->0),
                ..self
            },
            Step::Release => Shared {
                seqs: self.seqs.update(self.place(self.head), self.head + self.capacity),
                taking: Taking::Released(self.taking->Taken_0),
                ..self
            },
            Step::Advance => Shared {
                head: self.head + 1,
                taking: Taking::Idle,
                popped: self.popped.push(self.taking->Released_0),
                ..self
            },
            Step::Doze => Shared { asleep: true, ..self },
            Step::Wake => Shared { asleep: false, kicked: false, ..self },
        }
    }

    /// The slot of position `pos`, which is in this round, is as it should be.
    pub open spec fn slot_ok(self, pos: int) -> bool {
        let seq = self.seqs[self.place(pos)];
        let val = self.vals[self.place(pos)];
        if pos >= self.tail {
            seq == pos && val is None
        } else if self.filling.contains_key(pos) {
            seq == pos && match self.filling[pos] {
                Filling::Claimed(v) => v == self.pushed[pos] && val is None,
                Filling::Written => val == Some(self.pushed[pos]),
            }
        } else if pos == self.head && self.taking is Taken {
            seq == pos + 1 && val is None
        } else {
            seq == pos + 1 && val == Some(self.pushed[pos])
        }
    }

    /// What holds whenever no thread is inside a step: what was popped is what
    /// was pushed first, every slot is as it should be, and a consumer that
    /// sleeps while something has been claimed has been kicked or will be.
    pub open spec fn wf(self) -> bool {
        &&& self.capacity >= 2
        &&& self.seqs.len() == self.capacity
        &&& self.vals.len() == self.capacity
        &&& 0 <= self.head
        &&& self.unreleased() <= self.tail <= self.unreleased() + self.capacity
        &&& self.pushed.len() == self.tail
        &&& self.popped == self.pushed.take(self.head)
        &&& forall|p: int| #[trigger]
            self.filling.contains_key(p) ==> self.unreleased() <= p < self.tail
        &&& !(self.taking is Idle) ==> self.head < self.tail && !self.filling.contains_key(
            self.head,
        )
        &&& match self.taking {
            Taking::Taken(v) => v == self.pushed[self.head],
            Taking::Released(v) => v == self.pushed[self.head],
            _ => true,
        }
        &&& self.asleep ==> self.taking is Idle
        &&& self.asleep && self.head < self.tail ==> self.kicked || self.kick_to_come()
        &&& forall|p: int|
            self.unreleased() <= p < self.unreleased() + self.capacity ==> #[trigger] self.slot_ok(
                p,
            )
    }
}

/// Two positions of one round have different slots.
proof fn lemma_places_differ(first: int, p: int, q: int, capacity: int)
    requires
        capacity > 0,
        first <= p < q < first + capacity,
    ensures
        p % capacity != q % capacity,
        0 <= p % capacity < capacity,
        0 <= q % capacity < capacity,
{
    shard_inbox::lemma_places_differ(p, 0, q - p, capacity);
}

/// An empty ring is well formed. (With one slot, "published in this round" and
/// "free for the next" would be the same sequence number.)
pub proof fn law_empty_is_well_formed<T>(capacity: int)
    requires
        capacity >= 2,
    ensures
        Shared::<T>::empty(capacity).wf(),
{
    let s = Shared::<T>::empty(capacity);
    assert(s.popped =~= s.pushed.take(0));
    assert forall|p: int| 0 <= p < capacity implies #[trigger] s.slot_ok(p) by {
        vstd::arithmetic::div_mod::lemma_small_mod(p as nat, capacity as nat);
    }
}

/// Whatever step comes next, of whatever thread: what has been popped stays
/// the first of what has been pushed, in the order of the claims. Nothing is
/// lost, nothing comes twice, nothing overtakes.
pub proof fn law_steps_keep_the_order<T>(s: Shared<T>, step: Step<T>)
    requires
        s.wf(),
        s.enabled(step),
    ensures
        s.after(step).wf(),
        s.after(step).popped == s.after(step).pushed.take(s.after(step).head),
{
    let t = s.after(step);
    let first = s.unreleased();
    let cap = s.capacity;
    match step {
        Step::Claim(v) => {
            assert(s.tail < first + cap) by {
                if s.tail == first + cap {
                    assert(s.slot_ok(first));
                    vstd::arithmetic::div_mod::lemma_mod_add_multiples_vanish(first, cap);
                    assert(s.place(s.tail) == s.place(first));
                }
            }
            assert(s.slot_ok(s.tail));
            assert(t.popped =~= t.pushed.take(t.head));
            assert forall|p: int| first <= p < first + cap implies #[trigger] t.slot_ok(p) by {
                assert(s.slot_ok(p));
            }
        },
        Step::Write(p) => {
            assert(s.slot_ok(p));
            assert forall|q: int| first <= q < first + cap implies #[trigger] t.slot_ok(q) by {
                assert(s.slot_ok(q));
                if q < p {
                    lemma_places_differ(first, q, p, cap);
                } else if p < q {
                    lemma_places_differ(first, p, q, cap);
                } else {
                    vstd::arithmetic::div_mod::lemma_mod_bound(p, cap);
                }
            }
        },
        Step::Publish(p) => {
            assert(s.slot_ok(p));
            assert forall|q: int| first <= q < first + cap implies #[trigger] t.slot_ok(q) by {
                assert(s.slot_ok(q));
                if q < p {
                    lemma_places_differ(first, q, p, cap);
                } else if p < q {
                    lemma_places_differ(first, p, q, cap);
                } else {
                    vstd::arithmetic::div_mod::lemma_mod_bound(p, cap);
                }
            }
        },
        Step::See => {
            assert(s.slot_ok(s.head));
            assert forall|q: int| first <= q < first + cap implies #[trigger] t.slot_ok(q) by {
                assert(s.slot_ok(q));
            }
        },
        Step::Take => {
            assert(s.slot_ok(s.head));
            assert forall|q: int| first <= q < first + cap implies #[trigger] t.slot_ok(q) by {
                assert(s.slot_ok(q));
                if s.head < q {
                    lemma_places_differ(first, s.head, q, cap);
                } else {
                    vstd::arithmetic::div_mod::lemma_mod_bound(s.head, cap);
                }
            }
        },
        Step::Release => {
            assert(s.slot_ok(s.head));
            vstd::arithmetic::div_mod::lemma_mod_bound(s.head, cap);
            vstd::arithmetic::div_mod::lemma_mod_add_multiples_vanish(s.head, cap);
            assert forall|q: int| first + 1 <= q < first + 1 + cap implies #[trigger] t.slot_ok(
                q,
            ) by {
                if q < first + cap {
                    assert(s.slot_ok(q));
                    lemma_places_differ(first, s.head, q, cap);
                } else {
                    assert(t.place(q) == s.place(s.head));
                }
            }
        },
        Step::Advance => {
            assert(t.popped =~= t.pushed.take(t.head));
            assert forall|q: int| first <= q < first + cap implies #[trigger] t.slot_ok(q) by {
                assert(s.slot_ok(q));
            }
        },
        Step::Doze => {
            assert(s.slot_ok(s.head));
            assert forall|q: int| first <= q < first + cap implies #[trigger] t.slot_ok(q) by {
                assert(s.slot_ok(q));
            }
        },
        Step::LoadHead(_) | Step::Wake => {
            assert forall|q: int| first <= q < first + cap implies #[trigger] t.slot_ok(q) by {
                assert(s.slot_ok(q));
            }
        },
    }
}

/// A slot is in the hands of one thread at a time: two producers at work are
/// at different slots, and the consumer at work is at another one than any
/// producer.
pub proof fn law_slots_are_held_by_one<T>(s: Shared<T>, p: int, q: int)
    requires
        s.wf(),
        s.filling.contains_key(p),
    ensures
        s.filling.contains_key(q) && p != q ==> s.place(p) != s.place(q),
        s.taking is Seen || s.taking is Taken ==> s.place(p) != s.place(s.head),
{
    let first = s.unreleased();
    if s.filling.contains_key(q) && p != q {
        if p < q {
            lemma_places_differ(first, p, q, s.capacity);
        } else {
            lemma_places_differ(first, q, p, s.capacity);
        }
    }
    if s.taking is Seen || s.taking is Taken {
        lemma_places_differ(first, s.head, p, s.capacity);
    }
}

/// A sequence number never goes back.
pub proof fn law_sequence_numbers_grow<T>(s: Shared<T>, step: Step<T>, i: int)
    requires
        s.wf(),
        s.enabled(step),
        0 <= i < s.capacity,
    ensures
        s.seqs[i] <= s.after(step).seqs[i],
{
    match step {
        Step::Publish(p) => {
            assert(s.slot_ok(p));
        },
        Step::Release => {
            assert(s.slot_ok(s.head));
        },
        _ => {},
    }
}

/// The sequence number of the slot of position `pos`, for a position that the
/// tail has been at.
proof fn lemma_seq_of_claimed<T>(s: Shared<T>, pos: int)
    requires
        s.wf(),
        0 <= pos <= s.tail,
    ensures
        pos < s.tail ==> s.seqs[s.place(pos)] >= pos,
        pos == s.tail ==> s.seqs[s.place(pos)] == pos || (s.seqs[s.place(pos)] < pos && s.tail
            == s.unreleased() + s.capacity),
{
    let first = s.unreleased();
    let cap = s.capacity;
    if pos < first {
        // The slot is in a later round.
        let q = first + (pos - first) % cap;
        vstd::arithmetic::div_mod::lemma_mod_bound(pos - first, cap);
        vstd::arithmetic::div_mod::lemma_add_mod_noop_right(first, pos - first, cap);
        assert(q % cap == pos % cap);
        assert(s.slot_ok(q));
    } else if pos < first + cap {
        assert(s.slot_ok(pos));
    } else {
        assert(s.slot_ok(first));
        vstd::arithmetic::div_mod::lemma_mod_add_multiples_vanish(first, cap);
    }
}

/// A push is refused only when the ring is full: a sequence number below the
/// position that was loaded from the tail means that no other position has
/// been claimed since, and that every slot is still in use.
pub proof fn law_full_means_full<T>(s: Shared<T>, pos: int)
    requires
        s.wf(),
        0 <= pos <= s.tail,
        s.seqs[s.place(pos)] < pos,
    ensures
        pos == s.tail,
        s.tail == s.unreleased() + s.capacity,
{
    lemma_seq_of_claimed(s, pos);
}

/// A ring with a released slot does not refuse a push at its tail.
pub proof fn law_room_means_ready<T>(s: Shared<T>)
    requires
        s.wf(),
        s.tail < s.unreleased() + s.capacity,
    ensures
        s.seqs[s.place(s.tail)] == s.tail,
{
    lemma_seq_of_claimed(s, s.tail);
}

/// A claim is never stale: if the slot was seen ready for a position, and the
/// tail is still at that position when the exchange succeeds, the slot is
/// ready still. (Between the two a sequence number can only have grown.)
pub proof fn law_claims_are_not_stale<T>(s: Shared<T>, pos: int)
    requires
        s.wf(),
        pos == s.tail,
        s.seqs[s.place(pos)] >= pos,
    ensures
        s.seqs[s.place(pos)] == pos,
{
    lemma_seq_of_claimed(s, pos);
}

/// A position that is not the tail any more cannot be mistaken for a free one
/// or for a full ring: its sequence number is not below it, and an exchange
/// that expects it at the tail fails.
pub proof fn law_overtaken_producers_retry<T>(s: Shared<T>, pos: int)
    requires
        s.wf(),
        0 <= pos < s.tail,
    ensures
        s.seqs[s.place(pos)] >= pos,
{
    lemma_seq_of_claimed(s, pos);
}

/// No kick is missed: where the consumer sleeps and something has been
/// claimed, a kick is due that it has not answered, or the producer of the
/// position at the head has yet to load the head. The head does not move
/// while the consumer sleeps, so that producer will find it and kick.
pub proof fn law_no_kick_is_missed<T>(s: Shared<T>)
    requires
        s.wf(),
        s.asleep,
        s.head < s.tail,
    ensures
        s.kicked || s.kick_to_come(),
        s.loading.contains(s.head) ==> s.after(Step::LoadHead(s.head)).enabled(Step::Wake),
        s.kicked ==> s.enabled(Step::Wake),
{
}

/// Where every producer has come to its end, a consumer that sleeps while
/// something is there to take has been kicked: what is in the ring is popped
/// without another push.
pub proof fn law_nothing_is_left_lying<T>(s: Shared<T>)
    requires
        s.wf(),
        s.asleep,
        s.head < s.tail,
        forall|p: int| !#[trigger] s.filling.contains_key(p),
        forall|p: int| !#[trigger] s.loading.contains(p),
    ensures
        s.enabled(Step::Wake),
        s.after(Step::Wake).enabled(Step::See),
{
    assert(s.slot_ok(s.head));
}

/// No step but its own moves the head away from a sleeping consumer.
pub proof fn law_sleep_keeps_the_head<T>(s: Shared<T>, step: Step<T>)
    requires
        s.wf(),
        s.asleep,
        s.enabled(step),
    ensures
        s.after(step).head == s.head,
        s.after(step).asleep || step is Wake,
{
}

/// The wrapped words tell whether the head is at a position, as long as the
/// two are less than all the words apart.
pub proof fn law_words_tell_the_head(head: int, pos: int)
    requires
        -shard_inbox::words() < head - pos < shard_inbox::words(),
    ensures
        (shard_inbox::wrap(head) == shard_inbox::wrap(pos)) == (head == pos),
{
    let w = shard_inbox::words();
    vstd::arithmetic::div_mod::lemma_fundamental_div_mod(head, w);
    vstd::arithmetic::div_mod::lemma_fundamental_div_mod(pos, w);
    let a = head / w;
    let b = pos / w;
    if shard_inbox::wrap(head) == shard_inbox::wrap(pos) {
        assert(head - pos == w * a - w * b);
        assert(w * a - w * b == w * (a - b)) by (nonlinear_arith);
        assert(a - b >= 1 ==> w * (a - b) >= w) by (nonlinear_arith)
            requires
                w > 0,
        ;
        assert(a - b <= -1 ==> w * (a - b) <= -w) by (nonlinear_arith)
            requires
                w > 0,
        ;
    }
}

/// The wrapped words say the same as the positions, as long as the two are
/// less than half the words apart.
pub proof fn law_words_tell_positions(seq: int, pos: int)
    requires
        -isize::MAX <= seq - pos <= isize::MAX,
    ensures
        shard_inbox::slot_state(shard_inbox::wrap(seq), shard_inbox::wrap(pos)) == (if seq
            == pos {
            SlotState::Ready
        } else if seq < pos {
            SlotState::Behind
        } else {
            SlotState::Ahead
        }),
{
    let w = shard_inbox::words();
    vstd::arithmetic::div_mod::lemma_sub_mod_noop(seq, pos, w);
    assert(shard_inbox::wrap(shard_inbox::wrap(seq) - shard_inbox::wrap(pos))
        == shard_inbox::wrap(seq - pos));
    shard_inbox::lemma_wrap_cases(seq - pos);
    assert(2 * isize::MAX + 1 == usize::MAX) by {
        shard_inbox::lemma_half();
    }
}

/// What a producer decides, by the positions that the words stand for: it claims
/// its position if the slot's number is just that, for the position behind; it
/// gives up if the number is a lower one; and it looks again if it is higher.
pub proof fn law_decisions_follow_positions(seq: int, pos: int)
    requires
        -isize::MAX <= seq - pos <= isize::MAX,
    ensures
        ({
            let d = decided(shard_inbox::wrap(seq), shard_inbox::wrap(pos));
            &&& seq == pos ==> d is Claim && d->next as int == shard_inbox::wrap(pos + 1)
            &&& seq < pos ==> d is Full
            &&& seq > pos ==> d is Reload
        }),
{
    law_words_tell_positions(seq, pos);
    let w = shard_inbox::words();
    vstd::arithmetic::div_mod::lemma_add_mod_noop(pos, 1, w);
    vstd::arithmetic::div_mod::lemma_mod_bound(pos + 1, w);
    vstd::arithmetic::div_mod::lemma_mod_bound(pos, w);
    shard_inbox::lemma_wrap_cases(shard_inbox::wrap(pos) + 1);
    assert(shard_inbox::wrap(shard_inbox::wrap(pos) + 1) == shard_inbox::wrap(pos + 1)) by {
        shard_inbox::lemma_wrap_cases(1);
    }
}

} // verus!
