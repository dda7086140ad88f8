//! The subscriptions that a connection keeps, by `sid`.

use crate::bytes::{boxed, bytes_eq};
use vstd::prelude::*;

verus! {

/// The subscriptions of one connection: the subject under each `sid`.
///
/// No `sid` occurs twice.
pub struct SidMap {
    entries: Vec<(Box<[u8]>, Box<[u8]>)>,
}

/// Where a `sid` stands.
spec fn holds(entries: Seq<(Box<[u8]>, Box<[u8]>)>, sid: Seq<u8>, i: int) -> bool {
    0 <= i < entries.len() && entries[i].0@ == sid
}

spec fn no_sid_twice(entries: Seq<(Box<[u8]>, Box<[u8]>)>) -> bool {
    forall|i: int, j: int|
        0 <= i < j < entries.len() ==> #[trigger] entries[i].0@ != #[trigger] entries[j].0@
}

spec fn as_map(entries: Seq<(Box<[u8]>, Box<[u8]>)>) -> Map<Seq<u8>, Seq<u8>> {
    Map::new(
        |sid: Seq<u8>| exists|i: int| holds(entries, sid, i),
        |sid: Seq<u8>| entries[choose|i: int| holds(entries, sid, i)].1@,
    )
}

/// The subject under a `sid` is the one that stands beside it.
proof fn lemma_held(entries: Seq<(Box<[u8]>, Box<[u8]>)>, i: int)
    requires
        no_sid_twice(entries),
        0 <= i < entries.len(),
    ensures
        as_map(entries).contains_key(entries[i].0@),
        as_map(entries)[entries[i].0@] == entries[i].1@,
{
    let sid = entries[i].0@;
    assert(holds(entries, sid, i));
    let j = choose|j: int| holds(entries, sid, j);
    assert(holds(entries, sid, j));
    assert(i == j);
}

/// An entry more at the end is an entry more in the map.
proof fn lemma_map_push(entries: Seq<(Box<[u8]>, Box<[u8]>)>, e: (Box<[u8]>, Box<[u8]>))
    requires
        no_sid_twice(entries),
        !as_map(entries).contains_key(e.0@),
    ensures
        no_sid_twice(entries.push(e)),
        as_map(entries.push(e)) == as_map(entries).insert(e.0@, e.1@),
{
    let more = entries.push(e);
    assert forall|i: int, j: int| 0 <= i < j < more.len() implies #[trigger] more[i].0@
        != #[trigger] more[j].0@ by {
        if j == entries.len() {
            assert(!holds(entries, e.0@, i));
        }
    }
    assert forall|sid: Seq<u8>| as_map(more).contains_key(sid) == as_map(entries).insert(
        e.0@,
        e.1@,
    ).contains_key(sid) by {
        if exists|i: int| holds(more, sid, i) {
            let i = choose|i: int| holds(more, sid, i);
            if i < entries.len() {
                assert(holds(entries, sid, i));
            }
        }
        if exists|i: int| holds(entries, sid, i) {
            let i = choose|i: int| holds(entries, sid, i);
            assert(holds(more, sid, i));
        }
        assert(holds(more, e.0@, entries.len() as int));
    }
    assert forall|sid: Seq<u8>| as_map(more).contains_key(sid) implies as_map(more)[sid] == as_map(
        entries,
    ).insert(e.0@, e.1@)[sid] by {
        let i = choose|i: int| holds(more, sid, i);
        assert(holds(more, sid, i));
        lemma_held(more, i);
        if i < entries.len() {
            lemma_held(entries, i);
            assert(entries[i] == more[i]);
        }
    }
    assert(as_map(more) =~= as_map(entries).insert(e.0@, e.1@));
}

/// An entry less at the end is an entry less in the map.
proof fn lemma_map_pop(entries: Seq<(Box<[u8]>, Box<[u8]>)>)
    requires
        no_sid_twice(entries),
        entries.len() > 0,
    ensures
        no_sid_twice(entries.drop_last()),
        as_map(entries).contains_key(entries.last().0@),
        as_map(entries)[entries.last().0@] == entries.last().1@,
        as_map(entries.drop_last()) == as_map(entries).remove(entries.last().0@),
{
    let init = entries.drop_last();
    let e = entries.last();
    assert(forall|i: int| 0 <= i < init.len() ==> #[trigger] init[i] == entries[i]);
    lemma_held(entries, entries.len() - 1);
    if as_map(init).contains_key(e.0@) {
        let i = choose|i: int| holds(init, e.0@, i);
        assert(entries[i].0@ == entries[entries.len() - 1].0@);
    }
    assert(entries =~= init.push(e));
    lemma_map_push(init, e);
    assert(as_map(init) =~= as_map(entries).remove(e.0@));
}

impl View for SidMap {
    type V = Map<Seq<u8>, Seq<u8>>;

    closed spec fn view(&self) -> Map<Seq<u8>, Seq<u8>> {
        as_map(self.entries@)
    }
}

impl SidMap {
    /// No `sid` occurs twice.
    pub closed spec fn wf(self) -> bool {
        no_sid_twice(self.entries@)
    }

    /// No subscription.
    pub fn new() -> (r: Self)
        ensures
            r.wf(),
            r@ == Map::<Seq<u8>, Seq<u8>>::empty(),
    {
        let r = SidMap { entries: Vec::new() };
        assert(r@ =~= Map::<Seq<u8>, Seq<u8>>::empty());
        r
    }

    /// Takes out the subject under `sid`.
    pub fn remove(&mut self, sid: &[u8]) -> (r: Option<Box<[u8]>>)
        requires
            old(self).wf(),
        ensures
            final(self).wf(),
            final(self)@ == old(self)@.remove(sid@),
            r is Some == old(self)@.contains_key(sid@),
            r matches Some(subject) ==> subject@ == old(self)@[sid@],
    {
        let ghost before = self.entries@;
        let mut i: usize = 0;
        while i < self.entries.len()
            invariant
                self.entries@ == before,
                before == old(self).entries@,
                no_sid_twice(before),
                i <= before.len(),
                forall|j: int| 0 <= j < i ==> !holds(before, sid@, j),
            decreases before.len() - i,
        {
            if bytes_eq(&self.entries[i].0, sid) {
                let last: usize = self.entries.len() - 1;
                let (_, subject) = self.entries.swap_remove(i);
                proof {
                    lemma_held(before, i as int);
                    lemma_map_swap(before, i as int, last as int);
                    lemma_map_pop(before.update(i as int, before[last as int]).update(
                        last as int,
                        before[i as int],
                    ));
                    assert(self.entries@ =~= before.update(i as int, before[last as int]).update(
                        last as int,
                        before[i as int],
                    ).drop_last());
                }
                return Some(subject);
            }
            i += 1;
        }
        assert(self@.remove(sid@) =~= self@);
        None
    }

    /// Keeps `subject` under `sid`, in place of what was there.
    pub fn insert(&mut self, sid: &[u8], subject: &[u8])
        requires
            old(self).wf(),
        ensures
            final(self).wf(),
            final(self)@ == old(self)@.insert(sid@, subject@),
    {
        let ghost before = self@;
        self.remove(sid);
        let entry: (Box<[u8]>, Box<[u8]>) = (boxed(sid), boxed(subject));
        proof {
            lemma_map_push(self.entries@, entry);
        }
        self.entries.push(entry);
        assert(self@ =~= before.insert(sid@, subject@));
    }
}

/// Two entries change places: the map is the same.
proof fn lemma_map_swap(entries: Seq<(Box<[u8]>, Box<[u8]>)>, i: int, j: int)
    requires
        no_sid_twice(entries),
        0 <= i <= j < entries.len(),
    ensures
        no_sid_twice(entries.update(i, entries[j]).update(j, entries[i])),
        as_map(entries.update(i, entries[j]).update(j, entries[i])) == as_map(entries),
{
    let swapped = entries.update(i, entries[j]).update(j, entries[i]);
    let at = |k: int|
        if k == i {
            j
        } else if k == j {
            i
        } else {
            k
        };
    assert(forall|k: int| 0 <= k < entries.len() ==> #[trigger] swapped[k] == entries[at(k)]);
    assert forall|a: int, b: int| 0 <= a < b < swapped.len() implies #[trigger] swapped[a].0@
        != #[trigger] swapped[b].0@ by {
        assert(swapped[a] == entries[at(a)]);
        assert(swapped[b] == entries[at(b)]);
        assert(at(a) != at(b));
    }
    assert forall|sid: Seq<u8>| as_map(swapped).contains_key(sid) == as_map(entries).contains_key(
        sid,
    ) by {
        if exists|k: int| holds(swapped, sid, k) {
            let k = choose|k: int| holds(swapped, sid, k);
            assert(holds(entries, sid, at(k)));
        }
        if exists|k: int| holds(entries, sid, k) {
            let k = choose|k: int| holds(entries, sid, k);
            assert(swapped[at(k)] == entries[k]);
            assert(holds(swapped, sid, at(k)));
        }
    }
    assert forall|sid: Seq<u8>| as_map(swapped).contains_key(sid) implies as_map(swapped)[sid]
        == as_map(entries)[sid] by {
        let k = choose|k: int| holds(swapped, sid, k);
        assert(holds(swapped, sid, k));
        lemma_held(swapped, k);
        lemma_held(entries, at(k));
        assert(swapped[k] == entries[at(k)]);
    }
    assert(as_map(swapped) =~= as_map(entries));
}

} // verus!
