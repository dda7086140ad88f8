//! Bounded inbox for cross-shard publish handoff.
//!
//! A ring of slots, each with a sequence number that tells which round of
//! which side may use it. Producers push a frame; the owning shard pops them
//! in FIFO order on each wake. The primitive never blocks: a full inbox
//! returns [`ShardInboxFull`] so the caller can apply back-pressure.
//!
//! The read and write counters run on for ever and wrap with the machine
//! word. The capacity is a power of two, so that a slot's place in the ring
//! survives the wrap.

use vstd::arithmetic::power2;
use vstd::prelude::*;

verus! {

/// One frame in flight from a publisher shard to a peer shard.
///
/// Meant to be shared, so that the payload is held exactly once per
/// `PUB` regardless of fan-out.
#[derive(Debug)]
pub struct PublishedFrame {
    /// The publish subject (pre-validated by the publisher's shard).
    pub subject: Box<[u8]>,
    /// Optional `reply-to` subject from the original `PUB`.
    pub reply_to: Option<Box<[u8]>>,
    /// The publish payload bytes.
    pub payload: Box<[u8]>,
}

/// Returned by [`ShardInbox::push`] when the inbox is at capacity.
///
/// Carries the rejected value back to the caller.
#[derive(Debug)]
pub struct ShardInboxFull<T>(pub T);

/// How many values the machine word has.
pub open spec fn words() -> int {
    usize::MAX + 1
}

/// A counter that wraps with the machine word.
pub open spec fn wrap(x: int) -> int {
    x % words()
}

/// Where the `k`-th element from `head` on stands.
pub open spec fn place(head: int, k: int, capacity: int) -> int {
    (head + k) % capacity
}

/// What a slot's sequence number says to a producer that wants to use it at
/// position `pos`.
#[derive(Clone, Copy, Debug, PartialEq, Eq, Structural)]
pub enum SlotState {
    /// The slot is free for this position.
    Ready,
    /// The slot still holds the element of the round before: the ring is full.
    Behind,
    /// The slot has been used for this position already.
    Ahead,
}

/// Compares a slot's sequence number with a position.
///
/// Both wrap, so that it is the signed difference that counts: "ahead by less
/// than half the words" and "behind by less than half the words" are told
/// apart.
pub open spec fn slot_state(seq: int, pos: int) -> SlotState {
    let diff = wrap(seq - pos);
    if diff == 0 {
        SlotState::Ready
    } else if diff > isize::MAX {
        SlotState::Behind
    } else {
        SlotState::Ahead
    }
}

/// Compares a slot's sequence number with a position.
pub(crate) fn compare(seq: usize, pos: usize) -> (r: SlotState)
    ensures
        r == slot_state(seq as int, pos as int),
{
    proof {
        lemma_wrap_cases(seq - pos);
    }
    let diff: usize = seq.wrapping_sub(pos);
    if diff == 0 {
        SlotState::Ready
    } else if diff > isize::MAX as usize {
        SlotState::Behind
    } else {
        SlotState::Ahead
    }
}

/// Wrapping of a number that is off by less than one round.
pub proof fn lemma_wrap_cases(x: int)
    requires
        -words() <= x < 2 * words(),
    ensures
        0 <= wrap(x) < words(),
        wrap(x) == (if x < 0 {
            x + words()
        } else if x < words() {
            x
        } else {
            x - words()
        }),
{
    let w = words();
    if x < 0 {
        vstd::arithmetic::div_mod::lemma_fundamental_div_mod_converse_mod(x, w, -1, x + w);
    } else if x < w {
        vstd::arithmetic::div_mod::lemma_fundamental_div_mod_converse_mod(x, w, 0, x);
    } else {
        vstd::arithmetic::div_mod::lemma_fundamental_div_mod_converse_mod(x, w, 1, x - w);
    }
}

/// A power of two below the number of words divides it.
proof fn lemma_divides(exp: nat)
    requires
        exp < usize::BITS,
    ensures
        power2::pow2(exp) > 0,
        words() == power2::pow2(exp) * power2::pow2((usize::BITS - exp) as nat),
        exp >= 1 ==> 2 <= power2::pow2(exp),
        power2::pow2(exp) * 2 <= words(),
        power2::pow2((usize::BITS - 1) as nat) * 2 == words(),
{
    vstd::arithmetic::power2::lemma2_to64();
    vstd::arithmetic::power2::lemma_pow2_pos(exp);
    vstd::arithmetic::power2::lemma_pow2_adds(exp, (usize::BITS - exp) as nat);
    vstd::arithmetic::power2::lemma_pow2_adds((usize::BITS - 1) as nat, 1);
    assert(power2::pow2(usize::BITS as nat) == words());
    if exp < usize::BITS - 1 {
        vstd::arithmetic::power2::lemma_pow2_strictly_increases(exp, (usize::BITS - 1) as nat);
    }
    if exp > 1 {
        vstd::arithmetic::power2::lemma_pow2_strictly_increases(1, exp);
    }
}

/// Wrapping does not change a place in the ring.
proof fn lemma_wrap_keeps_place(x: int, exp: nat)
    requires
        exp < usize::BITS,
    ensures
        wrap(x) % (power2::pow2(exp) as int) == x % (power2::pow2(exp) as int),
{
    lemma_divides(exp);
    vstd::arithmetic::power2::lemma_pow2_pos((usize::BITS - exp) as nat);
    vstd::arithmetic::div_mod::lemma_mod_mod(
        x,
        power2::pow2(exp) as int,
        power2::pow2((usize::BITS - exp) as nat) as int,
    );
}

/// Different elements of one round stand in different places.
pub proof fn lemma_places_differ(head: int, j: int, k: int, capacity: int)
    requires
        0 <= j < k < capacity,
    ensures
        place(head, j, capacity) != place(head, k, capacity),
{
    if place(head, j, capacity) == place(head, k, capacity) {
        vstd::arithmetic::div_mod::lemma_fundamental_div_mod(head + j, capacity);
        vstd::arithmetic::div_mod::lemma_fundamental_div_mod(head + k, capacity);
        let a = (head + j) / capacity;
        let b = (head + k) / capacity;
        assert(k - j == capacity * b - capacity * a);
        assert(capacity * b - capacity * a == capacity * (b - a)) by (nonlinear_arith);
        assert(b - a <= 0 ==> capacity * (b - a) <= 0) by (nonlinear_arith)
            requires
                capacity > 0,
        ;
        assert(b - a >= 1 ==> capacity * (b - a) >= capacity) by (nonlinear_arith)
            requires
                capacity > 0,
        ;
    }
}

/// Half the words, less one, is the largest signed word.
pub proof fn lemma_half()
    ensures
        2 * isize::MAX + 1 == usize::MAX,
{
    vstd::arithmetic::power2::lemma2_to64();
}

/// Masking a position gives its place in a ring of `mask + 1` slots.
pub proof fn lemma_mask_is_mod(pos: usize, mask: usize)
    requires
        mask < usize::MAX,
        power2::is_pow2(mask + 1),
    ensures
        pos & mask == pos as int % (mask + 1),
        pos & mask <= mask,
{
    power2::is_pow2_equiv(mask + 1);
    let e = choose|e: nat| vstd::arithmetic::power::pow(2, e) == mask + 1;
    assert(power2::pow2(e) == mask + 1);
    assert(e < usize::BITS) by {
        lemma_divides(0);
        if e == usize::BITS {
            power2::lemma2_to64();
        } else if e > usize::BITS {
            power2::lemma2_to64();
            power2::lemma_pow2_strictly_increases(usize::BITS as nat, e);
        }
    }
    vstd::bits::lemma_low_bits_mask_values();
    vstd::bits::lemma_usize_low_bits_mask_is_mod(pos, e);
    assert(vstd::bits::low_bits_mask(e) == mask);
    vstd::arithmetic::div_mod::lemma_mod_bound(pos as int, mask + 1);
}

/// `cap` is the smallest power of two, of those from two on, that is not below
/// `requested`.
pub open spec fn is_capacity_for(cap: int, requested: int) -> bool {
    &&& power2::is_pow2(cap)
    &&& 2 <= cap
    &&& requested <= cap
    &&& cap > 2 ==> cap < 2 * requested
}

/// The capacity of a ring that has to hold `requested` elements: the next
/// power of two, with a minimum of 2.
pub fn ring_capacity(requested: usize) -> (cap: usize)
    requires
        requested <= usize::MAX / 2 + 1,
    ensures
        is_capacity_for(cap as int, requested as int),
        exists|e: nat| 1 <= e < usize::BITS && #[trigger] power2::pow2(e) == cap,
{
    let mut cap: usize = 2;
    let ghost mut exp: nat = 1;
    proof {
        power2::lemma2_to64();
        lemma_divides(1);
    }
    while cap < requested
        invariant
            requested <= usize::MAX / 2 + 1,
            1 <= exp < usize::BITS,
            cap == power2::pow2(exp),
            2 <= cap,
            cap > 2 ==> cap < 2 * requested,
        decreases usize::MAX - cap,
    {
        proof {
            power2::lemma_pow2_unfold(exp + 1);
            lemma_divides(exp);
            if exp + 1 >= usize::BITS {
                assert(exp == usize::BITS - 1);
            }
            exp = exp + 1;
        }
        cap = cap * 2;
    }
    proof {
        power2::is_pow2_equiv(cap as int);
        vstd::arithmetic::power::lemma_pow_positive(2, exp);
        assert(vstd::arithmetic::power::pow(2, exp) == cap);
    }
    cap
}

/// An inbox with these elements and this room takes one more.
pub open spec fn accepts<T>(q: Seq<T>, room: nat) -> bool {
    q.len() < room
}

/// The elements of an inbox after a push.
pub open spec fn after_push<T>(q: Seq<T>, room: nat, value: T) -> Seq<T> {
    if accepts(q, room) {
        q.push(value)
    } else {
        q
    }
}

/// What a pop gives and the elements after it.
pub open spec fn after_pop<T>(q: Seq<T>) -> (Option<T>, Seq<T>) {
    if q.len() > 0 {
        (Some(q[0]), q.skip(1))
    } else {
        (None, q)
    }
}

struct Slot<T> {
    /// Producers use the slot at position `pos` when `seq == pos`; the
    /// consumer takes from it when `seq == pos + 1`. After the consumer took,
    /// `seq` is one round on, for the next round's producer.
    seq: usize,
    val: Option<T>,
}

/// Bounded ring.
///
/// Capacity is fixed at construction and rounded up to the next power
/// of two so head/tail wrap with `&` instead of `%`.
pub struct ShardInbox<T> {
    mask: usize,
    cells: Vec<Slot<T>>,
    /// The position of the next push.
    tail: usize,
    /// The position of the next pop.
    head: usize,
    /// The capacity is two to this power.
    exp: Ghost<nat>,
}

impl<T> View for ShardInbox<T> {
    type V = Seq<T>;

    /// The elements in the inbox, the oldest first.
    closed spec fn view(&self) -> Seq<T> {
        Seq::new(
            self.count() as nat,
            |k: int| self.cells@[place(self.head as int, k, self.cells@.len() as int)].val->0,
        )
    }
}

impl<T> ShardInbox<T> {
    spec fn count(self) -> int {
        wrap(self.tail - self.head)
    }

    /// The slot of the `k`-th element from the head on is as it should be:
    /// full and marked so if the element is there, else free for the position.
    spec fn slot_ok(self, k: int) -> bool {
        let slot = self.cells@[place(self.head as int, k, self.cells@.len() as int)];
        if k < self.count() {
            slot.val is Some && slot.seq == wrap(self.head + k + 1)
        } else {
            slot.val is None && slot.seq == wrap(self.head + k)
        }
    }

    /// The capacity is a power of two, there are no more elements than that,
    /// and every slot is as it should be.
    pub closed spec fn wf(self) -> bool {
        &&& 1 <= self.exp@ < usize::BITS
        &&& self.cells@.len() == power2::pow2(self.exp@)
        &&& self.mask == self.cells@.len() - 1
        &&& self.count() <= self.cells@.len()
        &&& forall|k: int| 0 <= k < self.cells@.len() ==> #[trigger] self.slot_ok(k)
    }

    /// How many elements fit.
    pub closed spec fn room(self) -> nat {
        self.cells@.len()
    }

    /// Where a position stands in the ring.
    fn place_of(&self, pos: usize) -> (i: usize)
        requires
            self.wf(),
        ensures
            i == pos as int % (self.cells@.len() as int),
            i < self.cells@.len(),
    {
        proof {
            let e = self.exp@;
            lemma_divides(e);
            vstd::bits::lemma_low_bits_mask_values();
            vstd::bits::lemma_usize_low_bits_mask_is_mod(pos, e);
            assert(vstd::bits::low_bits_mask(e) == power2::pow2(e) - 1);
        }
        pos & self.mask
    }

    /// Create an inbox whose capacity is the next power of two `>=
    /// requested_capacity`, with a minimum of 2.
    #[must_use]
    pub fn with_capacity(requested_capacity: usize) -> (r: Self)
        requires
            requested_capacity <= usize::MAX / 2 + 1,
        ensures
            r.wf(),
            r@ == Seq::<T>::empty(),
            is_capacity_for(r.room() as int, requested_capacity as int),
    {
        let cap: usize = ring_capacity(requested_capacity);
        let ghost exp = choose|e: nat| 1 <= e < usize::BITS && power2::pow2(e) == cap;
        let mut cells: Vec<Slot<T>> = Vec::new();
        let mut i: usize = 0;
        while i < cap
            invariant
                i <= cap,
                cells@.len() == i,
                forall|j: int|
                    0 <= j < i ==> (#[trigger] cells@[j]).seq == j && cells@[j].val is None,
            decreases cap - i,
        {
            cells.push(Slot { seq: i, val: None });
            i += 1;
        }
        let r = ShardInbox { mask: cap - 1, cells, tail: 0, head: 0, exp: Ghost(exp) };
        proof {
            lemma_divides(exp);
            lemma_wrap_cases(0);
            assert forall|k: int| 0 <= k < cap implies #[trigger] r.slot_ok(k) by {
                lemma_wrap_cases(k);
                vstd::arithmetic::div_mod::lemma_small_mod(k as nat, cap as nat);
            }
            assert(r@ =~= Seq::<T>::empty());
        }
        r
    }

    /// Total slot count.
    #[must_use]
    pub fn capacity(&self) -> (n: usize)
        ensures
            n == self.room(),
    {
        self.cells.len()
    }

    /// Push one element. Returns `Ok(was_empty_before_push)` on
    /// success, `Err(ShardInboxFull(value))` if the ring is at
    /// capacity.
    ///
    /// `was_empty_before_push` tells the caller whether to kick the consumer
    /// (e.g. write `1` to an eventfd).
    pub fn push(&mut self, value: T) -> (r: Result<bool, ShardInboxFull<T>>)
        requires
            old(self).wf(),
        ensures
            final(self).wf(),
            final(self).room() == old(self).room(),
            final(self)@ == after_push(old(self)@, old(self).room(), value),
            r is Ok == accepts(old(self)@, old(self).room()),
            if old(self)@.len() < old(self).room() {
                r == Ok::<bool, ShardInboxFull<T>>(old(self)@.len() == 0) && final(self)@ == old(
                    self,
                )@.push(value)
            } else {
                r == Err::<bool, ShardInboxFull<T>>(ShardInboxFull(value)) && final(self)@ == old(
                    self,
                )@
            },
    {
        let ghost before = *self;
        let ghost n = self.count();
        let ghost cap = self.cells@.len() as int;
        let tail: usize = self.tail;
        let i: usize = self.place_of(tail);
        proof {
            lemma_divides(self.exp@);
            lemma_wrap_cases(tail - self.head);
            lemma_wrap_cases(self.head + n);
            lemma_wrap_keeps_place(self.head + n, self.exp@);
            assert(tail == wrap(self.head + n));
            assert(i == place(self.head as int, n, cap));
            if n < cap {
                assert(self.slot_ok(n));
                lemma_wrap_cases(0);
            } else {
                assert(self.slot_ok(0));
                lemma_wrap_cases(self.head + 1);
                vstd::arithmetic::div_mod::lemma_mod_add_multiples_vanish(
                    self.head as int,
                    cap,
                );
                assert(place(self.head as int, 0, cap) == i);
                lemma_wrap_cases(self.cells@[i as int].seq - tail);
            }
        }
        match compare(self.cells[i].seq, tail) {
            SlotState::Ready => {
                let next: usize = tail.wrapping_add(1);
                self.tail = next;
                self.cells[i].val = Some(value);
                self.cells[i].seq = next;
                proof {
                    lemma_wrap_cases(tail + 1);
                    assert(next == wrap(tail + 1));
                    lemma_wrap_cases(self.head + n + 1);
                    assert(next == wrap(self.head + n + 1));
                    lemma_wrap_cases(next - self.head);
                    assert(self.count() == n + 1);
                    assert forall|k: int| 0 <= k < cap implies #[trigger] self.slot_ok(k) by {
                        assert(before.slot_ok(k));
                        if k < n {
                            lemma_places_differ(self.head as int, k, n, cap);
                        } else if k > n {
                            lemma_places_differ(self.head as int, n, k, cap);
                        }
                    }
                    assert forall|k: int| 0 <= k < n implies self@[k] == before@[k] by {
                        lemma_places_differ(self.head as int, k, n, cap);
                    }
                    assert(self@ =~= before@.push(value));
                }
                Ok(self.head == tail)
            },
            _ => Err(ShardInboxFull(value)),
        }
    }

    /// Pop one element, the oldest.
    pub fn pop(&mut self) -> (r: Option<T>)
        requires
            old(self).wf(),
        ensures
            final(self).wf(),
            final(self).room() == old(self).room(),
            (r, final(self)@) == after_pop(old(self)@),
            if old(self)@.len() > 0 {
                r == Some(old(self)@[0]) && final(self)@ == old(self)@.skip(1)
            } else {
                r is None && final(self)@ == old(self)@
            },
    {
        let ghost before = *self;
        let ghost n = self.count();
        let ghost cap = self.cells@.len() as int;
        let head: usize = self.head;
        let i: usize = self.place_of(head);
        let next: usize = head.wrapping_add(1);
        proof {
            lemma_divides(self.exp@);
            lemma_wrap_cases(self.tail - head);
            lemma_wrap_cases(head as int);
            lemma_wrap_cases(head + 1);
            assert(next == wrap(head + 1));
            assert(self.slot_ok(0));
            assert(i == place(head as int, 0, cap));
        }
        if self.cells[i].seq != next {
            return None;
        }
        assert(n > 0);
        let value = self.cells[i].val.take();
        self.cells[i].seq = head.wrapping_add(self.mask).wrapping_add(1);
        self.head = next;
        proof {
            lemma_wrap_cases(head + self.mask);
            lemma_wrap_cases(head + cap);
            assert(self.cells@[i as int].seq == wrap(head + cap));
            lemma_wrap_cases(self.tail - next);
            assert(self.count() == n - 1);
            assert forall|k: int| 0 <= k < cap implies #[trigger] self.slot_ok(k) by {
                lemma_next_place(head as int, next as int, k, self.exp@);
                lemma_wrap_cases(head + k + 1);
                lemma_wrap_cases(head + k + 2);
                lemma_wrap_cases(next + k);
                lemma_wrap_cases(next + k + 1);
                if k < cap - 1 {
                    assert(before.slot_ok(k + 1));
                    lemma_places_differ(head as int, 0, k + 1, cap);
                } else {
                    vstd::arithmetic::div_mod::lemma_mod_add_multiples_vanish(head as int, cap);
                }
            }
            assert forall|k: int| 0 <= k < n - 1 implies self@[k] == before@[k + 1] by {
                lemma_next_place(head as int, next as int, k, self.exp@);
                lemma_places_differ(head as int, 0, k + 1, cap);
            }
            assert(self@ =~= before@.skip(1));
        }
        value
    }

    /// True if the inbox is empty.
    #[must_use]
    pub fn is_empty(&self) -> (r: bool)
        requires
            self.wf(),
        ensures
            r == (self@.len() == 0),
    {
        let head: usize = self.head;
        let i: usize = self.place_of(head);
        let next: usize = head.wrapping_add(1);
        proof {
            lemma_divides(self.exp@);
            lemma_wrap_cases(self.tail - head);
            lemma_wrap_cases(head as int);
            lemma_wrap_cases(head + 1);
            assert(self.slot_ok(0));
        }
        self.cells[i].seq != next
    }
}

/// One step on, the places move up by one.
proof fn lemma_next_place(head: int, next: int, k: int, exp: nat)
    requires
        exp < usize::BITS,
        next == wrap(head + 1),
        0 <= head < words(),
        0 <= k < power2::pow2(exp),
    ensures
        place(next, k, power2::pow2(exp) as int) == place(head, k + 1, power2::pow2(exp) as int),
{
    lemma_divides(exp);
    let cap = power2::pow2(exp) as int;
    lemma_wrap_cases(head + 1);
    lemma_wrap_keeps_place(next + k, exp);
    lemma_wrap_keeps_place(head + 1 + k, exp);
    lemma_wrap_cases(next + k);
    lemma_wrap_cases(head + 1 + k);
    assert(wrap(next + k) == wrap(head + 1 + k));
}

/// The capacity of a ring is the least that will do: no smaller power of two,
/// from two on, holds what was asked for.
pub proof fn law_capacity_is_least(cap: int, requested: int, other: int)
    requires
        is_capacity_for(cap, requested),
        power2::is_pow2(other),
        2 <= other,
        requested <= other,
    ensures
        power2::is_pow2(cap),
        requested <= cap,
        2 <= cap <= other,
{
    if other < cap {
        power2::is_pow2_equiv(cap);
        power2::is_pow2_equiv(other);
        let a = choose|e: nat| vstd::arithmetic::power::pow(2, e) == cap;
        let b = choose|e: nat| vstd::arithmetic::power::pow(2, e) == other;
        power2::lemma_pow2(a);
        power2::lemma_pow2(b);
        if a <= b {
            if a < b {
                power2::lemma_pow2_strictly_increases(a, b);
            }
        } else {
            power2::lemma_pow2_unfold((b + 1) as nat);
            if b + 1 < a {
                power2::lemma_pow2_strictly_increases((b + 1) as nat, a);
            }
        }
    }
}

/// The elements of an inbox after pushing values, one after the other.
pub open spec fn after_pushes<T>(q: Seq<T>, room: nat, values: Seq<T>) -> Seq<T>
    decreases values.len(),
{
    if values.len() == 0 {
        q
    } else {
        after_pushes(after_push(q, room, values[0]), room, values.skip(1))
    }
}

/// What is in an inbox comes out in the order in which it went in: values that
/// are pushed while there is room stand behind what was there, each once, and
/// the `k`-th pop gives the `k`-th of all of them.
pub proof fn law_first_in_first_out<T>(q: Seq<T>, room: nat, values: Seq<T>, k: nat)
    requires
        q.len() + values.len() <= room,
        k < q.len() + values.len(),
    ensures
        after_pushes(q, room, values) == q + values,
        after_pop((q + values).skip(k as int)).0 == Some((q + values)[k as int]),
        after_pop((q + values).skip(k as int)).1 == (q + values).skip(k as int + 1),
{
    lemma_after_pushes(q, room, values);
    assert((q + values).skip(k as int).skip(1) =~= (q + values).skip(k as int + 1));
}

proof fn lemma_after_pushes<T>(q: Seq<T>, room: nat, values: Seq<T>)
    requires
        q.len() + values.len() <= room,
    ensures
        after_pushes(q, room, values) == q + values,
    decreases values.len(),
{
    if values.len() == 0 {
        assert(q + values =~= q);
    } else {
        lemma_after_pushes(q.push(values[0]), room, values.skip(1));
        assert(q.push(values[0]) + values.skip(1) =~= q + values);
    }
}

/// A full inbox refuses what is pushed and keeps what it holds; once one
/// element has been popped it takes one again. An empty one gives nothing.
pub proof fn law_full_and_empty<T>(q: Seq<T>, room: nat, value: T)
    requires
        room > 0,
        q.len() == room,
    ensures
        !accepts(q, room),
        after_push(q, room, value) == q,
        accepts(after_pop(q).1, room),
        after_push(after_pop(q).1, room, value) == q.skip(1).push(value),
        after_pop(Seq::<T>::empty()).0 is None,
        accepts(Seq::<T>::empty(), room),
{
}

} // verus!
