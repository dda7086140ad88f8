//! Who of the matching subscribers receives a published message.
//!
//! Subscribers without a queue group always receive. Of each queue group
//! exactly one member receives, picked with the worker's random numbers.

use crate::bytes::{bytes_eq, clone_boxed};
use crate::subject::MAX_ITEMS;
use crate::subscription::{self, ConnectionId, Sub, SubView};
use smallvec::SmallVec;
use vstd::prelude::*;

verus! {

/// One subscriber that a message goes to: the connection and its `sid`.
pub type Snapshot = (ConnectionId, Box<[u8]>);

/// A receiver of a message.
#[verifier::ext_equal]
pub struct Target {
    pub conn_id: u32,
    pub sid: Seq<u8>,
}

/// The receiver that a subscription stands for.
pub open spec fn target(sub: SubView) -> Target {
    Target { conn_id: sub.conn_id, sid: sub.sid }
}

/// The receivers without a queue group, in order.
pub open spec fn plain_targets(subs: Seq<SubView>) -> Seq<Target> {
    subs.filter(|s: SubView| s.queue_group is None).map_values(|s: SubView| target(s))
}

/// The members of one queue group, in order.
pub open spec fn members(subs: Seq<SubView>, group: Seq<u8>) -> Seq<Target> {
    subs.filter(|s: SubView| s.queue_group == Some(group)).map_values(|s: SubView| target(s))
}

/// The queue groups, in the order in which they first occur.
pub open spec fn group_names(subs: Seq<SubView>) -> Seq<Seq<u8>>
    decreases subs.len(),
{
    if subs.len() == 0 {
        Seq::empty()
    } else {
        let names = group_names(subs.drop_last());
        match subs.last().queue_group {
            Some(group) => if names.contains(group) {
                names
            } else {
                names.push(group)
            },
            None => names,
        }
    }
}

/// The next state of the xorshift64 stream.
pub open spec fn next_random(s: u64) -> u64 {
    let a = s ^ (s << 13u64);
    let b = a ^ (a >> 7u64);
    b ^ (b << 17u64)
}

/// The state of the stream `k` steps on.
pub open spec fn random_after(s: u64, k: nat) -> u64
    decreases k,
{
    if k == 0 {
        s
    } else {
        next_random(random_after(s, (k - 1) as nat))
    }
}

/// The index in `0..n` that a random number stands for.
pub open spec fn index_of(random: u64, n: nat) -> int {
    (random as usize) as int % (n as int)
}

/// The member of the `i`-th queue group that receives, where the stream stands
/// at `random` before the first group.
pub open spec fn picked(subs: Seq<SubView>, random: u64, i: int) -> Target {
    let group = members(subs, group_names(subs)[i]);
    group[index_of(random_after(random, (i + 1) as nat), group.len())]
}

/// Everyone who receives: all without a queue group, then one of each group.
pub open spec fn receivers(subs: Seq<SubView>, random: u64) -> Seq<Target> {
    plain_targets(subs) + Seq::new(group_names(subs).len(), |i: int| picked(subs, random, i))
}

/// The receivers in a list of snapshots.
pub open spec fn targets(list: Seq<Snapshot>) -> Seq<Target> {
    list.map_values(|s: Snapshot| Target { conn_id: s.0@, sid: s.1@ })
}

/// Subscribers to serve, inline up to eight of them.
#[verifier::external_body]
pub struct SnapshotList(SmallVec<[Snapshot; 8]>);

/// The snapshots that a list holds, in order.
pub uninterp spec fn held_snapshots(list: SnapshotList) -> Seq<Snapshot>;

impl View for SnapshotList {
    type V = Seq<Target>;

    open spec fn view(&self) -> Seq<Target> {
        targets(held_snapshots(*self))
    }
}

impl SnapshotList {
    /// An empty list, by `SmallVec::new`.
    #[verifier::external_body]
    fn new() -> (r: Self)
        ensures
            held_snapshots(r) == Seq::<Snapshot>::empty(),
    {
        SnapshotList(SmallVec::new())
    }

    /// Appends a snapshot behind the others, by `SmallVec::push`. The list
    /// grows on the heap when its inline room is used up, which panics where
    /// the allocation would not be addressable; the bound keeps clear of that.
    #[verifier::external_body]
    fn push(&mut self, entry: Snapshot)
        requires
            held_snapshots(*old(self)).len() < MAX_ITEMS,
        ensures
            held_snapshots(*final(self)) == held_snapshots(*old(self)).push(entry),
    {
        self.0.push(entry)
    }

    /// The snapshots as one slice, by `SmallVec::as_slice`: the same items in
    /// the same order.
    #[verifier::external_body]
    pub(crate) fn as_slice(&self) -> (r: &[Snapshot])
        ensures
            r@ == held_snapshots(*self),
    {
        self.0.as_slice()
    }

    /// Appends the receiver that `sub` stands for.
    fn add_target(&mut self, sub: &Sub)
        requires
            old(self)@.len() < MAX_ITEMS,
        ensures
            final(self)@ == old(self)@.push(target(sub@)),
    {
        let ghost before = self@;
        self.push((sub.conn_id, clone_boxed(&sub.sid)));
        assert(self@ =~= before.push(target(sub@)));
    }
}

/// One queue-group bucket: the group name plus its candidate
/// subscribers for the current publish.
pub struct GroupBucket {
    pub name: Box<[u8]>,
    pub members: SnapshotList,
}

/// The distinct queue groups of one publish, inline up to four of them.
#[verifier::external_body]
pub struct GroupList(SmallVec<[GroupBucket; 4]>);

/// The buckets that a list holds, in order.
pub uninterp spec fn held_groups(list: GroupList) -> Seq<GroupBucket>;

impl View for GroupList {
    type V = Seq<GroupBucket>;

    open spec fn view(&self) -> Seq<GroupBucket> {
        held_groups(*self)
    }
}

impl GroupList {
    /// An empty list, by `SmallVec::new`.
    #[verifier::external_body]
    fn new() -> (r: Self)
        ensures
            held_groups(r) == Seq::<GroupBucket>::empty(),
    {
        GroupList(SmallVec::new())
    }

    /// Appends a bucket behind the others, by `SmallVec::push`. The list
    /// grows on the heap when its inline room is used up, which panics where
    /// the allocation would not be addressable; the bound keeps clear of that.
    #[verifier::external_body]
    fn push(&mut self, bucket: GroupBucket)
        requires
            held_groups(*old(self)).len() < MAX_ITEMS,
        ensures
            held_groups(*final(self)) == held_groups(*old(self)).push(bucket),
    {
        self.0.push(bucket)
    }

    /// The buckets as one slice, by `SmallVec::as_slice`: the same items in
    /// the same order.
    #[verifier::external_body]
    pub(crate) fn as_slice(&self) -> (r: &[GroupBucket])
        ensures
            r@ == held_groups(*self),
    {
        self.0.as_slice()
    }

    /// The buckets as one slice to change in place, by
    /// `SmallVec::as_mut_slice`: what is written through the slice is what
    /// the list then holds.
    #[verifier::external_body]
    fn as_mut_slice(&mut self) -> (r: &mut [GroupBucket])
        ensures
            r@ == held_groups(*old(self)),
            final(r)@ == held_groups(*final(self)),
    {
        self.0.as_mut_slice()
    }
}

/// The buckets hold the queue groups of `subs` and their members.
pub open spec fn buckets_of(groups: Seq<GroupBucket>, subs: Seq<SubView>) -> bool {
    &&& groups.len() == group_names(subs).len()
    &&& forall|i: int|
        0 <= i < groups.len() ==> {
            &&& (#[trigger] groups[i]).name@ == group_names(subs)[i]
            &&& groups[i].members@ == members(subs, group_names(subs)[i])
        }
}

/// One more subscription among the receivers without a group and among the
/// members of its group.
proof fn lemma_push(subs: Seq<SubView>, s: SubView, group: Seq<u8>)
    ensures
        plain_targets(subs.push(s)) == (if s.queue_group is None {
            plain_targets(subs).push(target(s))
        } else {
            plain_targets(subs)
        }),
        members(subs.push(s), group) == (if s.queue_group == Some(group) {
            members(subs, group).push(target(s))
        } else {
            members(subs, group)
        }),
{
    reveal(Seq::filter);
    assert(subs.push(s).drop_last() =~= subs);
    assert(plain_targets(subs.push(s)) =~= (if s.queue_group is None {
        plain_targets(subs).push(target(s))
    } else {
        plain_targets(subs)
    }));
    assert(members(subs.push(s), group) =~= (if s.queue_group == Some(group) {
        members(subs, group).push(target(s))
    } else {
        members(subs, group)
    }));
}

/// The groups are those that occur, each once; every one of them has a
/// member, and what is no group has none.
pub proof fn lemma_group_names(subs: Seq<SubView>)
    ensures
        group_names(subs).no_duplicates(),
        group_names(subs).len() <= subs.len(),
        forall|g: Seq<u8>| #[trigger]
            group_names(subs).contains(g) == (exists|i: int|
                0 <= i < subs.len() && #[trigger] subs[i].queue_group == Some(g)),
        forall|g: Seq<u8>| #[trigger]
            group_names(subs).contains(g) == (members(subs, g).len() > 0),
    decreases subs.len(),
{
    if subs.len() == 0 {
        assert forall|g: Seq<u8>| #[trigger] group_names(subs).contains(g) == (members(
            subs,
            g,
        ).len() > 0) by {
            subs.lemma_filter_len(|s: SubView| s.queue_group == Some(g));
        }
    } else {
        let init = subs.drop_last();
        let last = subs.last();
        lemma_group_names(init);
        assert(subs =~= init.push(last));
        let before = group_names(init);
        let names = group_names(subs);
        assert forall|g: Seq<u8>| #[trigger] names.contains(g) == (before.contains(g)
            || last.queue_group == Some(g)) by {
            if before.contains(g) {
                let i = choose|i: int| 0 <= i < before.len() && before[i] == g;
                assert(names[i] == g);
            }
            if last.queue_group == Some(g) && !before.contains(g) {
                assert(names[before.len() as int] == g);
            }
            if names.contains(g) {
                let i = choose|i: int| 0 <= i < names.len() && names[i] == g;
                if i < before.len() {
                    assert(before[i] == g);
                }
            }
        }
        assert forall|g: Seq<u8>| #[trigger] names.contains(g) == (exists|i: int|
            0 <= i < subs.len() && #[trigger] subs[i].queue_group == Some(g)) by {
            if before.contains(g) {
                let i = choose|i: int|
                    0 <= i < init.len() && #[trigger] init[i].queue_group == Some(g);
                assert(subs[i].queue_group == Some(g));
            }
            if last.queue_group == Some(g) {
                assert(subs[subs.len() - 1].queue_group == Some(g));
            }
            if exists|i: int| 0 <= i < subs.len() && #[trigger] subs[i].queue_group == Some(g) {
                let i = choose|i: int|
                    0 <= i < subs.len() && #[trigger] subs[i].queue_group == Some(g);
                if i < init.len() {
                    assert(init[i].queue_group == Some(g));
                }
            }
        }
        assert forall|g: Seq<u8>| #[trigger] names.contains(g) == (members(subs, g).len() > 0) by {
            lemma_push(init, last, g);
        }
    }
}

/// Where the bucket of a group stands.
fn find_group(groups: &[GroupBucket], name: &[u8]) -> (r: Option<usize>)
    ensures
        r is None ==> forall|j: int| 0 <= j < groups@.len() ==> (#[trigger] groups@[j]).name@
            != name@,
        r is Some ==> r->0 < groups@.len() && groups@[r->0 as int].name@ == name@,
{
    let mut i: usize = 0;
    while i < groups.len()
        invariant
            i <= groups@.len(),
            forall|j: int| 0 <= j < i ==> (#[trigger] groups@[j]).name@ != name@,
        decreases groups@.len() - i,
    {
        if bytes_eq(&groups[i].name, name) {
            return Some(i);
        }
        i += 1;
    }
    None
}

/// Adds a member to the bucket of its group, with a new bucket for a new
/// group.
fn add_member(groups: &mut GroupList, name: &Box<[u8]>, sub: &Sub, Ghost(subs): Ghost<Seq<SubView>>)
    requires
        buckets_of(old(groups)@, subs),
        subs.len() < MAX_ITEMS,
        sub@.queue_group == Some(name@),
    ensures
        buckets_of(final(groups)@, subs.push(sub@)),
{
    let ghost more = subs.push(sub@);
    let ghost names = group_names(subs);
    let ghost before = groups@;
    proof {
        assert(more.drop_last() =~= subs);
        lemma_group_names(subs);
    }
    match find_group(groups.as_slice(), name) {
        Some(i) => {
            proof {
                assert(names[i as int] == name@);
                assert(names.contains(name@));
                lemma_members_len(subs, name@);
            }
            let slice = groups.as_mut_slice();
            slice[i].members.add_target(sub);
            assert(group_names(more) == names);
            assert forall|j: int| 0 <= j < groups@.len() implies {
                &&& (#[trigger] groups@[j]).name@ == names[j]
                &&& groups@[j].members@ == members(more, names[j])
            } by {
                lemma_push(subs, sub@, names[j]);
                if j != i {
                    assert(groups@[j] == before[j]);
                    assert(names[j] != names[i as int]);
                }
            }
        },
        None => {
            proof {
                if names.contains(name@) {
                    let j = choose|j: int| 0 <= j < names.len() && names[j] == name@;
                    assert(before[j].name@ == name@);
                }
                assert(members(subs, name@).len() == 0);
            }
            let mut list = SnapshotList::new();
            assert(list@ =~= members(subs, name@));
            list.add_target(sub);
            groups.push(GroupBucket { name: clone_boxed(name), members: list });
            assert(group_names(more) == names.push(name@));
            assert forall|j: int| 0 <= j < groups@.len() implies {
                &&& (#[trigger] groups@[j]).name@ == group_names(more)[j]
                &&& groups@[j].members@ == members(more, group_names(more)[j])
            } by {
                lemma_push(subs, sub@, group_names(more)[j]);
                if j < before.len() {
                    assert(groups@[j] == before[j]);
                    assert(names.contains(names[j]));
                }
            }
        },
    }
}

proof fn lemma_members_len(subs: Seq<SubView>, group: Seq<u8>)
    ensures
        members(subs, group).len() <= subs.len(),
        plain_targets(subs).len() <= subs.len(),
{
    subs.lemma_filter_len(|s: SubView| s.queue_group == Some(group));
    subs.lemma_filter_len(|s: SubView| s.queue_group is None);
}

/// Splits matching subscribers into those that always receive and one bucket
/// per queue group.
pub fn split_groups(subs: &[&Sub]) -> (r: (SnapshotList, GroupList))
    requires
        subs@.len() <= MAX_ITEMS,
    ensures
        r.0@ == plain_targets(subscription::said(subs@)),
        buckets_of(r.1@, subscription::said(subs@)),
{
    let mut plain = SnapshotList::new();
    let mut groups = GroupList::new();
    let ghost all = subscription::said(subs@);
    let mut i: usize = 0;
    proof {
        reveal(Seq::filter);
        assert(all.take(0) =~= Seq::<SubView>::empty());
        assert(plain@ =~= plain_targets(all.take(0)));
    }
    while i < subs.len()
        invariant
            i <= subs@.len() <= MAX_ITEMS,
            all == subscription::said(subs@),
            plain@ == plain_targets(all.take(i as int)),
            buckets_of(groups@, all.take(i as int)),
        decreases subs@.len() - i,
    {
        let sub: &Sub = subs[i];
        let ghost done = all.take(i as int);
        proof {
            assert(all.take(i + 1) =~= done.push(sub@));
            assert(done.push(sub@).drop_last() =~= done);
            lemma_push(done, sub@, Seq::empty());
            lemma_members_len(done, Seq::empty());
        }
        match &sub.queue_group {
            Some(name) => {
                add_member(&mut groups, name, sub, Ghost(done));
            },
            None => {
                plain.add_target(sub);
                assert forall|j: int| 0 <= j < groups@.len() implies {
                    &&& (#[trigger] groups@[j]).name@ == group_names(done.push(sub@))[j]
                    &&& groups@[j].members@ == members(
                        done.push(sub@),
                        group_names(done.push(sub@))[j],
                    )
                } by {
                    lemma_push(done, sub@, group_names(done)[j]);
                }
            },
        }
        i += 1;
    }
    assert(all.take(i as int) =~= all);
    (plain, groups)
}

/// Steps the xorshift64 stream and picks an index in `0..n`.
pub fn pick_index(random: &mut u64, n: usize) -> (r: usize)
    requires
        n > 0,
    ensures
        *final(random) == next_random(*old(random)),
        r == index_of(*final(random), n as nat),
        r < n,
{
    let mut s: u64 = *random;
    s = s ^ (s << 13u64);
    s = s ^ (s >> 7u64);
    s = s ^ (s << 17u64);
    *random = s;
    #[verifier::truncate]
    let truncated: usize = s as usize;
    truncated % n
}

/// A stream that starts at a number other than zero never comes to zero, where
/// it would stay.
pub proof fn law_random_is_never_zero(s: u64)
    requires
        s != 0,
    ensures
        next_random(s) != 0,
{
    assert(s != 0 ==> s ^ (s << 13u64) != 0) by (bit_vector);
    let a = s ^ (s << 13u64);
    assert(a != 0 ==> a ^ (a >> 7u64) != 0) by (bit_vector);
    let b = a ^ (a >> 7u64);
    assert(b != 0 ==> b ^ (b << 17u64) != 0) by (bit_vector);
}

/// Of each queue group exactly one member receives; those without a group all
/// do. There is one receiver for each subscription without a group and one
/// for each group, and the one for a group is a member of it.
pub proof fn law_one_receiver_per_group(subs: Seq<SubView>, random: u64)
    ensures
        receivers(subs, random).len() == plain_targets(subs).len() + group_names(subs).len(),
        receivers(subs, random).take(plain_targets(subs).len() as int) == plain_targets(subs),
        group_names(subs).no_duplicates(),
        forall|i: int|
            0 <= i < group_names(subs).len() ==> members(subs, group_names(subs)[i]).contains(
                #[trigger] receivers(subs, random)[plain_targets(subs).len() + i],
            ),
{
    lemma_group_names(subs);
    let all = receivers(subs, random);
    let n = plain_targets(subs).len();
    assert(all.take(n as int) =~= plain_targets(subs));
    assert forall|i: int| 0 <= i < group_names(subs).len() implies members(
        subs,
        group_names(subs)[i],
    ).contains(#[trigger] all[n + i]) by {
        let names = group_names(subs);
        assert(names.contains(names[i]));
        let group = members(subs, names[i]);
        let k = index_of(random_after(random, (i + 1) as nat), group.len());
        assert(all[n + i] == picked(subs, random, i));
        assert(0 <= k < group.len());
        assert(group[k] == all[n + i]);
    }
}

/// Who receives, without regard to order: every subscription without a queue
/// group, once for each time that it occurs, and one member of each queue
/// group. `chosen` are the members that are picked, one for each of the groups
/// `groups`, which are those that occur, each once.
pub proof fn law_receivers_are_plain_and_picked(subs: Seq<SubView>, random: u64) -> (r: (
    Seq<SubView>,
    Seq<Seq<u8>>,
))
    ensures
        ({
            let (chosen, groups) = r;
            &&& groups.no_duplicates()
            &&& chosen.len() == groups.len()
            &&& forall|g: Seq<u8>| #[trigger]
                groups.contains(g) <==> exists|i: int|
                    0 <= i < subs.len() && (#[trigger] subs[i]).queue_group == Some(g)
            &&& forall|i: int|
                0 <= i < chosen.len() ==> (#[trigger] chosen[i]).queue_group == Some(groups[i])
                    && subs.contains(chosen[i])
            &&& receivers(subs, random) == (subs.filter(|s: SubView| s.queue_group is None)
                + chosen).map_values(
                |s: SubView| Target { conn_id: s.conn_id, sid: s.sid },
            )
        }),
{
    lemma_group_names(subs);
    law_one_receiver_per_group(subs, random);
    let groups = group_names(subs);
    let chosen = Seq::new(
        groups.len(),
        |i: int|
            {
                let of = subs.filter(|s: SubView| s.queue_group == Some(groups[i]));
                of[index_of(random_after(random, (i + 1) as nat), of.len())]
            },
    );
    let plain = subs.filter(|s: SubView| s.queue_group is None);
    let aim = |s: SubView| Target { conn_id: s.conn_id, sid: s.sid };
    assert forall|i: int| 0 <= i < chosen.len() implies (#[trigger] chosen[i]).queue_group == Some(
        groups[i],
    ) && subs.contains(chosen[i]) && picked(subs, random, i) == aim(chosen[i]) by {
        let pred = |s: SubView| s.queue_group == Some(groups[i]);
        let of = subs.filter(pred);
        assert(groups.contains(groups[i]));
        assert(members(subs, groups[i]).len() > 0);
        let k = index_of(random_after(random, (i + 1) as nat), of.len());
        assert(0 <= k < of.len());
        subs.lemma_filter_pred(pred, k);
        lemma_filtered_from(subs, pred, k);
    }
    assert forall|g: Seq<u8>| #[trigger] groups.contains(g) <==> exists|i: int|
        0 <= i < subs.len() && (#[trigger] subs[i]).queue_group == Some(g) by {
        if groups.contains(g) {
            let i = choose|i: int|
                0 <= i < subs.len() && #[trigger] subs[i].queue_group == Some(g);
            assert(subs[i].queue_group == Some(g));
        }
    }
    assert(receivers(subs, random) =~= (plain + chosen).map_values(aim));
    (chosen, groups)
}

/// What is filtered out of a list comes from it.
proof fn lemma_filtered_from(
    list: Seq<SubView>,
    pred: spec_fn(SubView) -> bool,
    m: int,
)
    requires
        0 <= m < list.filter(pred).len(),
    ensures
        list.contains(list.filter(pred)[m]),
    decreases list.len(),
{
    reveal(Seq::filter);
    let init = list.drop_last();
    let x = list.filter(pred)[m];
    if m < init.filter(pred).len() {
        lemma_filtered_from(init, pred, m);
        let i = choose|i: int| 0 <= i < init.len() && init[i] == x;
        assert(list[i] == x);
    } else {
        assert(list[list.len() - 1] == x);
    }
}

/// The stream never runs two states together, so that it comes back to where
/// it started before it repeats anything.
pub proof fn law_random_is_one_to_one(a: u64, b: u64)
    ensures
        next_random(a) == next_random(b) ==> a == b,
{
    assert((a ^ (a << 13u64)) == (b ^ (b << 13u64)) ==> a == b) by (bit_vector);
    let a1 = a ^ (a << 13u64);
    let b1 = b ^ (b << 13u64);
    assert((a1 ^ (a1 >> 7u64)) == (b1 ^ (b1 >> 7u64)) ==> a1 == b1) by (bit_vector);
    let a2 = a1 ^ (a1 >> 7u64);
    let b2 = b1 ^ (b1 >> 7u64);
    assert((a2 ^ (a2 << 17u64)) == (b2 ^ (b2 << 17u64)) ==> a2 == b2) by (bit_vector);
}

/// A step of the stream is three shifts, each folded in: left by thirteen,
/// right by seven, left by seventeen.
pub proof fn law_random_is_xorshift(s: u64, a: u64, b: u64)
    requires
        a == s ^ (s << 13u64),
        b == a ^ (a >> 7u64),
    ensures
        next_random(s) == b ^ (b << 17u64),
        random_after(s, 0) == s,
        random_after(s, 1) == next_random(s),
{
    reveal_with_fuel(random_after, 2);
}

/// The stream of any length goes on one step at a time, from either end.
pub proof fn law_random_adds_up(s: u64, m: nat, n: nat)
    ensures
        random_after(s, m + n) == random_after(random_after(s, m), n),
        random_after(s, n + 1) == next_random(random_after(s, n)),
    decreases n,
{
    if n > 0 {
        law_random_adds_up(s, m, (n - 1) as nat);
    }
}

/// A random number stands for its remainder by the number of members: every
/// member can be picked, and in turn as the numbers count up.
pub proof fn law_every_member_has_its_turn(random: u64, n: nat, k: nat)
    requires
        0 < n <= usize::MAX,
        k < n,
    ensures
        0 <= index_of(random, n) < n,
        random <= usize::MAX ==> index_of(random, n) == random as int % (n as int),
        index_of(k as u64, n) == k,
        random < usize::MAX ==> index_of((random + 1) as u64, n) == (if index_of(random, n) + 1
            == n {
            0
        } else {
            index_of(random, n) + 1
        }),
{
    vstd::arithmetic::div_mod::lemma_small_mod(k, n);
    vstd::arithmetic::div_mod::lemma_mod_bound((random as usize) as int, n as int);
    if random < usize::MAX {
        let r = random as int;
        let m = n as int;
        vstd::arithmetic::div_mod::lemma_fundamental_div_mod(r, m);
        let q = r / m;
        if r % m + 1 == m {
            assert(r + 1 == m * (q + 1)) by (nonlinear_arith)
                requires
                    r == m * q + r % m,
                    r % m + 1 == m,
            ;
            vstd::arithmetic::div_mod::lemma_fundamental_div_mod_converse_mod(r + 1, m, q + 1, 0);
        } else {
            assert(r + 1 == m * q + (r % m + 1));
            assert(m * q == q * m) by (nonlinear_arith);
            vstd::arithmetic::div_mod::lemma_fundamental_div_mod_converse_mod(
                r + 1,
                m,
                q,
                r % m + 1,
            );
        }
    }
}

/// Which member of a group receives: the stream of random numbers goes one step
/// on for each group, and its number then, divided by how many members the
/// group has, leaves the place of the one that receives, counted from zero.
pub proof fn law_picks_follow_the_stream(subs: Seq<SubView>, random: u64, i: int)
    requires
        0 <= i < group_names(subs).len(),
    ensures
        ({
            let of = subs.filter(|s: SubView| s.queue_group == Some(group_names(subs)[i]));
            let alone = subs.filter(|s: SubView| s.queue_group is None);
            let k = (random_after(random, (i + 1) as nat) as usize) as int % of.len() as int;
            &&& of.len() > 0
            &&& 0 <= k < of.len()
            &&& receivers(subs, random)[alone.len() + i].conn_id == of[k].conn_id
            &&& receivers(subs, random)[alone.len() + i].sid == of[k].sid
        }),
{
    lemma_group_names(subs);
    let names = group_names(subs);
    assert(names.contains(names[i]));
    assert(members(subs, names[i]).len() > 0);
    assert(receivers(subs, random)[plain_targets(subs).len() + i] == picked(subs, random, i));
}

/// The groups stand in the order in which their first members do.
pub proof fn law_groups_stand_in_order(subs: Seq<SubView>, i: int, j: int)
    requires
        0 <= i < j < group_names(subs).len(),
    ensures
        exists|a: int|
            0 <= a < subs.len() && (#[trigger] subs[a]).queue_group == Some(group_names(subs)[i])
                && forall|b: int|
                0 <= b <= a ==> (#[trigger] subs[b]).queue_group != Some(group_names(subs)[j]),
    decreases subs.len(),
{
    lemma_group_names(subs);
    let init = subs.drop_last();
    let before = group_names(init);
    let names = group_names(subs);
    lemma_group_names(init);
    if j < before.len() {
        law_groups_stand_in_order(init, i, j);
        let a = choose|a: int|
            0 <= a < init.len() && (#[trigger] init[a]).queue_group == Some(before[i])
                && forall|b: int|
                0 <= b <= a ==> (#[trigger] init[b]).queue_group != Some(before[j]);
        assert(subs[a] == init[a]);
        assert forall|b: int| 0 <= b <= a implies (#[trigger] subs[b]).queue_group != Some(
            names[j],
        ) by {
            assert(init[b] == subs[b]);
        }
    } else {
        assert(before.contains(before[i]));
        let a = choose|a: int| 0 <= a < init.len() && #[trigger] init[a].queue_group == Some(
            before[i],
        );
        assert(subs[a] == init[a]);
        assert forall|b: int| 0 <= b <= a implies (#[trigger] subs[b]).queue_group != Some(
            names[j],
        ) by {
            assert(init[b] == subs[b]);
            if init[b].queue_group == Some(names[j]) {
                assert(before.contains(names[j]));
            }
        }
    }
}

} // verus!
