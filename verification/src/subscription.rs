//! Per-worker subscription trie with wildcards and queue groups.
//!
//! The trie is keyed on dot-separated tokens. At each level a node has:
//!
//! - `exact`: subscribers whose subscription path ends exactly here.
//! - `rest`: subscribers anchored with `.>` at this node; they match
//!   any concrete subject reaching this point with at least one more
//!   token to consume.
//! - `children`: literal-token children, no token twice.
//! - `star`: a dedicated slot for the `*` (single-token) wildcard child.
//!
//! Match is a recursive descent with no backtracking: at each level we
//! emit `rest` subscribers, then descend into the literal child and the
//! `star` child as parallel branches.

use crate::bytes::{boxed, bytes_eq, clone_boxed};
use crate::matching::{self, Entry};
use crate::subject::{
    self, is_greater, is_star, parse_publisher_subject, parse_subscriber_subject, SubjectError,
    MAX_ITEMS,
};
use smallvec::SmallVec;
use vstd::prelude::*;

verus! {

/// Worker-local connection identifier, assigned at accept.
#[derive(Clone, Copy, Debug, PartialEq, Eq, Hash, PartialOrd, Ord, Structural)]
pub struct ConnectionId(u32);

impl View for ConnectionId {
    type V = u32;

    closed spec fn view(&self) -> u32 {
        self.0
    }
}

impl ConnectionId {
    /// Wraps a raw `u32`.
    #[must_use]
    pub fn new(raw: u32) -> (r: Self)
        ensures
            r@ == raw,
    {
        Self(raw)
    }

    /// Returns the underlying `u32`.
    #[must_use]
    pub fn get(self) -> (raw: u32)
        ensures
            raw == self@,
    {
        self.0
    }
}

/// One subscription on a (possibly wildcarded) subject.
#[derive(Debug, PartialEq, Eq)]
pub struct Sub {
    /// Owning connection.
    pub conn_id: ConnectionId,
    /// Client-chosen subscription identifier.
    pub sid: Box<[u8]>,
    /// Optional queue group: subscribers in the same group are
    /// load-balanced; subscribers without a group always receive.
    pub queue_group: Option<Box<[u8]>>,
}

/// What a subscription says, free of how its bytes are held.
#[verifier::ext_equal]
pub struct SubView {
    pub conn_id: u32,
    pub sid: Seq<u8>,
    pub queue_group: Option<Seq<u8>>,
}

impl View for Sub {
    type V = SubView;

    open spec fn view(&self) -> SubView {
        SubView {
            conn_id: self.conn_id@,
            sid: self.sid@,
            queue_group: match self.queue_group {
                Some(group) => Some(group@),
                None => None,
            },
        }
    }
}

impl Clone for Sub {
    fn clone(&self) -> (r: Self)
        ensures
            r == *self,
    {
        Sub {
            conn_id: self.conn_id,
            sid: clone_boxed(&self.sid),
            queue_group: match &self.queue_group {
                Some(group) => Some(clone_boxed(group)),
                None => None,
            },
        }
    }
}

/// `sub` is the subscription `sid` of connection `conn`.
pub open spec fn is_sub(sub: SubView, conn: u32, sid: Seq<u8>) -> bool {
    sub.conn_id == conn && sub.sid == sid
}

/// One of `list` is the subscription `sid` of connection `conn`.
pub open spec fn lists(list: Seq<SubView>, conn: u32, sid: Seq<u8>) -> bool {
    exists|i: int| 0 <= i < list.len() && is_sub(#[trigger] list[i], conn, sid)
}

/// `list` without the first subscription `sid` of connection `conn`.
pub open spec fn less(list: Seq<SubView>, conn: u32, sid: Seq<u8>) -> Seq<SubView> {
    matching::less_first(list, |s: SubView| is_sub(s, conn, sid))
}

/// The subscriptions of `list` that are not of connection `conn`.
pub open spec fn not_of(list: Seq<SubView>, conn: u32) -> Seq<SubView> {
    list.filter(|s: SubView| s.conn_id != conn)
}

/// True if `sub` is not of `conn_id`.
fn is_not_of(sub: &Sub, conn_id: ConnectionId) -> (r: bool)
    ensures
        r == (sub@.conn_id != conn_id@),
{
    sub.conn_id.get() != conn_id.get()
}

/// The subscribers of one bucket, inline up to four of them.
#[verifier::external_body]
pub struct SubList(SmallVec<[Sub; 4]>);

/// The subscribers that a bucket holds, in order of arrival.
pub uninterp spec fn held_subs(list: SubList) -> Seq<Sub>;

impl View for SubList {
    type V = Seq<SubView>;

    closed spec fn view(&self) -> Seq<SubView> {
        held_subs(*self).map_values(|s: Sub| s@)
    }
}

impl SubList {
    /// An empty bucket, by `SmallVec::new`.
    #[verifier::external_body]
    fn new() -> (r: Self)
        ensures
            held_subs(r) == Seq::<Sub>::empty(),
    {
        SubList(SmallVec::new())
    }

    /// Appends a subscriber behind the others, by `SmallVec::push`. The list
    /// grows on the heap when its inline room is used up, which panics where
    /// the allocation would not be addressable; the bound keeps clear of that.
    #[verifier::external_body]
    fn push(&mut self, sub: Sub)
        requires
            held_subs(*old(self)).len() < MAX_ITEMS,
        ensures
            held_subs(*final(self)) == held_subs(*old(self)).push(sub),
    {
        self.0.push(sub)
    }

    /// Takes out the subscriber at `index`, by `SmallVec::remove`, which shifts
    /// those behind it to the left and panics if there is none at `index`.
    #[verifier::external_body]
    fn remove(&mut self, index: usize) -> (sub: Sub)
        requires
            index < held_subs(*old(self)).len(),
        ensures
            sub == held_subs(*old(self))[index as int],
            held_subs(*final(self)) == held_subs(*old(self)).remove(index as int),
    {
        self.0.remove(index)
    }

    /// Removes the subscribers that are of `conn_id`, by `SmallVec::retain`:
    /// the items for which the predicate holds stay, in their order, and the
    /// others go.
    #[verifier::external_body]
    fn retain_not_of(&mut self, conn_id: ConnectionId)
        ensures
            held_subs(*final(self)) == held_subs(*old(self)).filter(
                |s: Sub| s@.conn_id != conn_id@,
            ),
    {
        self.0.retain(|s| is_not_of(s, conn_id))
    }

    /// The subscribers as one slice, by `SmallVec::as_slice`: the same items
    /// in the same order.
    #[verifier::external_body]
    fn as_slice(&self) -> (r: &[Sub])
        ensures
            r@ == held_subs(*self),
    {
        self.0.as_slice()
    }

    /// Adds a subscriber behind the others.
    fn add_sub(&mut self, sub: Sub)
        requires
            old(self)@.len() < MAX_ITEMS,
        ensures
            final(self)@ == old(self)@.push(sub@),
    {
        let ghost before = self@;
        self.push(sub);
        assert(self@ =~= before.push(sub@));
    }

    /// Removes one subscriber that is `sid` of `conn_id`, the first, if there
    /// is one.
    fn remove_sub(&mut self, conn_id: ConnectionId, sid: &[u8]) -> (removed: bool)
        ensures
            final(self)@ == less(old(self)@, conn_id@, sid@),
            removed == lists(old(self)@, conn_id@, sid@),
            final(self)@.len() == old(self)@.len() - (if removed {
                1int
            } else {
                0
            }),
    {
        let ghost before = self@;
        let ghost hit = |s: SubView| is_sub(s, conn_id@, sid@);
        let count: usize = self.as_slice().len();
        let mut i: usize = 0;
        while i < count
            invariant
                i <= count,
                *self == *old(self),
                self@ == before,
                count == before.len(),
                hit == (|s: SubView| is_sub(s, conn_id@, sid@)),
                forall|j: int| 0 <= j < i ==> !hit(#[trigger] before[j]),
            decreases count - i,
        {
            let sub: &Sub = &self.as_slice()[i];
            if sub.conn_id.get() == conn_id.get() && bytes_eq(&sub.sid, sid) {
                assert(hit(before[i as int]));
                assert(is_sub(before[i as int], conn_id@, sid@));
                proof {
                    matching::lemma_less_first(before, hit, i as int);
                }
                self.remove(i);
                assert(self@ =~= before.remove(i as int));
                return true;
            }
            i += 1;
        }
        proof {
            matching::lemma_less_first(before, hit, count as int);
            if lists(before, conn_id@, sid@) {
                let j = choose|j: int|
                    0 <= j < before.len() && is_sub(#[trigger] before[j], conn_id@, sid@);
                assert(!hit(before[j]));
            }
        }
        false
    }

    /// Removes the subscribers of `conn_id` and tells how many that were.
    fn remove_connection(&mut self, conn_id: ConnectionId) -> (gone: usize)
        ensures
            final(self)@ == not_of(old(self)@, conn_id@),
            gone == old(self)@.len() - final(self)@.len(),
    {
        let ghost before = held_subs(*self);
        proof {
            lemma_filter_views(before, conn_id@);
            before.lemma_filter_len(|s: Sub| s@.conn_id != conn_id@);
        }
        let count: usize = self.as_slice().len();
        self.retain_not_of(conn_id);
        count - self.as_slice().len()
    }
}

/// Filtering subscriptions and then looking at what they say is the same as
/// filtering what they say.
proof fn lemma_filter_views(list: Seq<Sub>, conn: u32)
    ensures
        list.filter(|s: Sub| s@.conn_id != conn).map_values(|s: Sub| s@) == not_of(
            list.map_values(|s: Sub| s@),
            conn,
        ),
    decreases list.len(),
{
    reveal(Seq::filter);
    let keep = |s: Sub| s@.conn_id != conn;
    let said = |s: Sub| s@;
    if list.len() == 0 {
        assert(list.filter(keep).map_values(said) =~= not_of(list.map_values(said), conn));
    } else {
        let init = list.drop_last();
        lemma_filter_views(init, conn);
        assert(list.map_values(said).drop_last() =~= init.map_values(said));
        assert(list.filter(keep).map_values(said) =~= not_of(list.map_values(said), conn));
    }
}

/// A trie node.
struct Node {
    exact: SubList,
    rest: SubList,
    children: Vec<(Box<[u8]>, Box<Node>)>,
    star: Option<Box<Node>>,
}

/// The child under a literal token.
spec fn child(children: Seq<(Box<[u8]>, Box<Node>)>, token: Seq<u8>) -> Option<Node> {
    if exists|i: int| 0 <= i < children.len() && #[trigger] children[i].0@ == token {
        let i = choose|i: int| 0 <= i < children.len() && #[trigger] children[i].0@ == token;
        Some(*children[i].1)
    } else {
        None
    }
}

/// No token has two children.
spec fn distinct(children: Seq<(Box<[u8]>, Box<Node>)>) -> bool {
    forall|i: int, j: int|
        0 <= i < j < children.len() ==> #[trigger] children[i].0@ != #[trigger] children[j].0@
}

impl Node {
    /// Nothing is stored in this node or below it.
    spec fn vacant(self) -> bool {
        &&& self.exact@.len() == 0
        &&& self.rest@.len() == 0
        &&& self.children@.len() == 0
        &&& self.star is None
    }

    /// The children are distinct literals, and there is no vacant node below.
    spec fn wf(self) -> bool
        decreases self,
    {
        &&& distinct(self.children@)
        &&& forall|i: int|
            0 <= i < self.children@.len() ==> {
                &&& !subject::is_wildcard((#[trigger] self.children@[i]).0@)
                &&& self.children@[i].1.wf()
                &&& !self.children@[i].1.vacant()
            }
        &&& self.star matches Some(c) ==> c.wf() && !c.vacant()
    }

    /// The subscribers stored under a pattern, in order of arrival.
    spec fn at(self, pattern: Seq<Seq<u8>>) -> Seq<SubView>
        decreases pattern.len(),
    {
        if pattern.len() == 0 {
            self.exact@
        } else if pattern[0] == subject::greater() {
            if pattern.len() == 1 {
                self.rest@
            } else {
                Seq::empty()
            }
        } else if pattern[0] == subject::star() {
            match self.star {
                Some(c) => c.at(pattern.skip(1)),
                None => Seq::empty(),
            }
        } else {
            match child(self.children@, pattern[0]) {
                Some(c) => c.at(pattern.skip(1)),
                None => Seq::empty(),
            }
        }
    }

    fn new() -> (r: Node)
        ensures
            r.wf(),
            r.vacant(),
            forall|p: Seq<Seq<u8>>| (#[trigger] r.at(p)).len() == 0,
    {
        let r = Node {
            exact: SubList::new(),
            rest: SubList::new(),
            children: Vec::new(),
            star: None,
        };
        assert forall|p: Seq<Seq<u8>>| (#[trigger] r.at(p)).len() == 0 by {
            if p.len() > 0 {
                assert(child(r.children@, p[0]) is None);
            }
        }
        r
    }

    fn is_empty(&self) -> (r: bool)
        ensures
            r == self.vacant(),
    {
        self.exact.as_slice().len() == 0 && self.rest.as_slice().len() == 0 && self.children.len()
            == 0 && self.star.is_none()
    }

    /// Where the child under a literal token stands.
    fn find_child(&self, token: &[u8]) -> (r: Option<usize>)
        ensures
            r is None ==> child(self.children@, token@) is None && forall|j: int|
                0 <= j < self.children@.len() ==> (#[trigger] self.children@[j]).0@ != token@,
            r is Some ==> r->0 < self.children@.len() && self.children@[r->0 as int].0@ == token@,
    {
        let mut i: usize = 0;
        while i < self.children.len()
            invariant
                i <= self.children@.len(),
                forall|j: int| 0 <= j < i ==> (#[trigger] self.children@[j]).0@ != token@,
            decreases self.children@.len() - i,
        {
            if bytes_eq(&self.children[i].0, token) {
                return Some(i);
            }
            i += 1;
        }
        None
    }
}

/// The child under a token is the one that stands beside it.
proof fn lemma_child(children: Seq<(Box<[u8]>, Box<Node>)>, i: int)
    requires
        distinct(children),
        0 <= i < children.len(),
    ensures
        child(children, children[i].0@) == Some(*children[i].1),
{
    let token = children[i].0@;
    let j = choose|j: int| 0 <= j < children.len() && #[trigger] children[j].0@ == token;
    assert(0 <= j < children.len() && children[j].0@ == token);
    assert(i == j);
}

/// Replacing one child changes the lookup of its token alone.
proof fn lemma_child_replaced(
    before: Seq<(Box<[u8]>, Box<Node>)>,
    after: Seq<(Box<[u8]>, Box<Node>)>,
    i: int,
)
    requires
        distinct(before),
        0 <= i < before.len(),
        after.len() == before.len(),
        after[i].0@ == before[i].0@,
        forall|j: int| 0 <= j < before.len() && j != i ==> #[trigger] after[j] == before[j],
    ensures
        distinct(after),
        child(after, after[i].0@) == Some(*after[i].1),
        forall|t: Seq<u8>| t != after[i].0@ ==> #[trigger] child(after, t) == child(before, t),
{
    lemma_child(after, i);
    assert forall|t: Seq<u8>| t != after[i].0@ implies #[trigger] child(after, t) == child(
        before,
        t,
    ) by {
        if exists|j: int| 0 <= j < before.len() && #[trigger] before[j].0@ == t {
            let j = choose|j: int| 0 <= j < before.len() && #[trigger] before[j].0@ == t;
            assert(after[j] == before[j]);
            lemma_child(before, j);
            lemma_child(after, j);
        } else {
            assert forall|j: int| 0 <= j < after.len() implies #[trigger] after[j].0@ != t by {
                if j != i {
                    assert(after[j] == before[j]);
                }
            }
        }
    }
}

/// A new child is found; the others are found as before.
proof fn lemma_child_pushed(before: Seq<(Box<[u8]>, Box<Node>)>, entry: (Box<[u8]>, Box<Node>))
    requires
        distinct(before),
        forall|j: int| 0 <= j < before.len() ==> (#[trigger] before[j]).0@ != entry.0@,
    ensures
        distinct(before.push(entry)),
        child(before, entry.0@) is None,
        child(before.push(entry), entry.0@) == Some(*entry.1),
        forall|t: Seq<u8>|
            t != entry.0@ ==> #[trigger] child(before.push(entry), t) == child(before, t),
{
    let after = before.push(entry);
    assert(distinct(after));
    lemma_child(after, before.len() as int);
    assert forall|t: Seq<u8>| t != entry.0@ implies #[trigger] child(after, t) == child(
        before,
        t,
    ) by {
        if exists|j: int| 0 <= j < before.len() && #[trigger] before[j].0@ == t {
            let j = choose|j: int| 0 <= j < before.len() && #[trigger] before[j].0@ == t;
            assert(after[j] == before[j]);
            lemma_child(before, j);
            lemma_child(after, j);
        } else {
            assert forall|j: int| 0 <= j < after.len() implies #[trigger] after[j].0@ != t by {
                if j < before.len() {
                    assert(after[j] == before[j]);
                }
            }
        }
    }
}

/// A removed child is found no more; the others are found as before.
proof fn lemma_child_removed(before: Seq<(Box<[u8]>, Box<Node>)>, i: int)
    requires
        distinct(before),
        0 <= i < before.len(),
    ensures
        distinct(before.remove(i)),
        child(before.remove(i), before[i].0@) is None,
        forall|t: Seq<u8>|
            t != before[i].0@ ==> #[trigger] child(before.remove(i), t) == child(before, t),
{
    let after = before.remove(i);
    assert(forall|j: int| 0 <= j < i ==> #[trigger] after[j] == before[j]);
    assert(forall|j: int| i <= j < after.len() ==> #[trigger] after[j] == before[j + 1]);
    assert(distinct(after));
    assert forall|t: Seq<u8>| t != before[i].0@ implies #[trigger] child(after, t) == child(
        before,
        t,
    ) by {
        if exists|j: int| 0 <= j < before.len() && #[trigger] before[j].0@ == t {
            let j = choose|j: int| 0 <= j < before.len() && #[trigger] before[j].0@ == t;
            let k = if j < i {
                j
            } else {
                j - 1
            };
            assert(after[k] == before[j]);
            lemma_child(before, j);
            lemma_child(after, k);
        } else {
            assert forall|j: int| 0 <= j < after.len() implies #[trigger] after[j].0@ != t by {
                if j < i {
                    assert(after[j] == before[j]);
                } else {
                    assert(after[j] == before[j + 1]);
                }
            }
        }
    }
}

/// A vacant node stores nothing under any pattern.
proof fn lemma_vacant(node: Node)
    requires
        node.vacant(),
    ensures
        forall|p: Seq<Seq<u8>>| (#[trigger] node.at(p)).len() == 0,
{
    assert forall|p: Seq<Seq<u8>>| (#[trigger] node.at(p)).len() == 0 by {
        if p.len() > 0 {
            assert(child(node.children@, p[0]) is None);
        }
    }
}

/// The tokens of a parsed subject from `depth` on.
spec fn suffix(toks: Seq<&[u8]>, depth: int) -> Seq<Seq<u8>> {
    toks.map_values(|t: &[u8]| t@).skip(depth)
}

/// A pattern that can be stored: `>` is its last token or nowhere.
spec fn storable(pattern: Seq<Seq<u8>>) -> bool {
    !subject::has_inner_greater(pattern)
}

proof fn lemma_suffix(toks: Seq<&[u8]>, depth: int)
    requires
        0 <= depth < toks.len(),
        storable(suffix(toks, depth)),
    ensures
        suffix(toks, depth).len() == toks.len() - depth,
        suffix(toks, depth)[0] == toks[depth]@,
        suffix(toks, depth).skip(1) == suffix(toks, depth + 1),
        storable(suffix(toks, depth + 1)),
        toks[depth]@ == subject::greater() ==> suffix(toks, depth).len() == 1,
{
    let s = suffix(toks, depth);
    let t = suffix(toks, depth + 1);
    assert(s.skip(1) =~= t);
    assert forall|i: int| 0 <= i < t.len() - 1 implies #[trigger] t[i] != subject::greater() by {
        assert(s[i + 1] == t[i]);
    }
    if s.len() > 1 {
        assert(s[0] != subject::greater());
    }
}

/// Two patterns are the same if they start with the same token and go on the
/// same way.
proof fn lemma_same_pattern(p: Seq<Seq<u8>>, q: Seq<Seq<u8>>)
    requires
        p.len() > 0,
        q.len() > 0,
        p[0] == q[0],
        p.skip(1) == q.skip(1),
    ensures
        p == q,
{
    assert(p =~= seq![p[0]] + p.skip(1));
    assert(q =~= seq![q[0]] + q.skip(1));
}

/// Adds `sub` under the tokens from `depth` on.
fn subscribe_walk(node: &mut Node, toks: &[&[u8]], depth: usize, sub: Sub)
    requires
        old(node).wf(),
        depth <= toks@.len(),
        storable(suffix(toks@, depth as int)),
        old(node).at(suffix(toks@, depth as int)).len() < MAX_ITEMS,
    ensures
        final(node).wf(),
        !final(node).vacant(),
        forall|p: Seq<Seq<u8>>| #[trigger]
            final(node).at(p) == (if p == suffix(toks@, depth as int) {
                old(node).at(p).push(sub@)
            } else {
                old(node).at(p)
            }),
    decreases toks@.len() - depth,
{
    let ghost before = *node;
    let ghost path = suffix(toks@, depth as int);
    if depth == toks.len() {
        assert(path.len() == 0);
        node.exact.add_sub(sub);
        assert forall|p: Seq<Seq<u8>>| #[trigger] node.at(p) == (if p == path {
            before.at(p).push(sub@)
        } else {
            before.at(p)
        }) by {
            if p.len() == 0 {
                assert(p =~= path);
            }
        }
        return;
    }
    proof {
        lemma_suffix(toks@, depth as int);
    }
    let token: &[u8] = toks[depth];
    if is_greater(token) {
        node.rest.add_sub(sub);
        assert forall|p: Seq<Seq<u8>>| #[trigger] node.at(p) == (if p == path {
            before.at(p).push(sub@)
        } else {
            before.at(p)
        }) by {
            if p.len() == 1 && p[0] == subject::greater() {
                assert(p =~= path);
            }
        }
    } else if is_star(token) {
        let mut boxed_child: Box<Node> = match node.star.take() {
            Some(c) => c,
            None => Box::new(Node::new()),
        };
        let ghost child_before = *boxed_child;
        subscribe_walk(&mut *boxed_child, toks, depth + 1, sub);
        let ghost child_after = *boxed_child;
        node.star = Some(boxed_child);
        assert forall|p: Seq<Seq<u8>>| #[trigger] node.at(p) == (if p == path {
            before.at(p).push(sub@)
        } else {
            before.at(p)
        }) by {
            if p.len() > 0 && p[0] == subject::star() {
                if p.skip(1) == path.skip(1) {
                    lemma_same_pattern(p, path);
                }
                assert(node.at(p) == child_after.at(p.skip(1)));
                assert(before.at(p) =~= child_before.at(p.skip(1)));
            }
        }
    } else {
        let i: usize = match node.find_child(token) {
            Some(i) => {
                proof {
                    lemma_child(before.children@, i as int);
                }
                i
            },
            None => {
                let entry: (Box<[u8]>, Box<Node>) = (boxed(token), Box::new(Node::new()));
                proof {
                    lemma_child_pushed(before.children@, entry);
                }
                node.children.push(entry);
                node.children.len() - 1
            },
        };
        let ghost grown = *node;
        let ghost child_before = *grown.children@[i as int].1;
        assert(forall|p: Seq<Seq<u8>>| p.len() > 0 && p[0] == token@ ==> #[trigger] before.at(p)
            =~= child_before.at(p.skip(1)));
        subscribe_walk(&mut node.children[i].1, toks, depth + 1, sub);
        let ghost child_after = *node.children@[i as int].1;
        proof {
            lemma_child_replaced(grown.children@, node.children@, i as int);
        }
        assert forall|p: Seq<Seq<u8>>| #[trigger] node.at(p) == (if p == path {
            before.at(p).push(sub@)
        } else {
            before.at(p)
        }) by {
            if p.len() > 0 && p[0] == token@ {
                if p.skip(1) == path.skip(1) {
                    lemma_same_pattern(p, path);
                }
                assert(node.at(p) == child_after.at(p.skip(1)));
                assert(before.at(p) =~= child_before.at(p.skip(1)));
            } else if p.len() > 0 && !subject::is_wildcard(p[0]) {
                assert(child(node.children@, p[0]) == child(before.children@, p[0]));
            }
        }
    }
}

/// `after` is `before` without one subscription `sid` of `conn` under `path`.
spec fn removed_from(before: Node, after: Node, path: Seq<Seq<u8>>, conn: u32, sid: Seq<u8>) -> bool {
    forall|p: Seq<Seq<u8>>| #[trigger]
        after.at(p) == (if p == path {
            less(before.at(p), conn, sid)
        } else {
            before.at(p)
        })
}

/// Removes one subscription `sid` of `conn_id` under the tokens from `depth`
/// on, prunes the nodes that become empty, and counts down `total`.
fn unsubscribe_walk(
    node: &mut Node,
    toks: &[&[u8]],
    depth: usize,
    conn_id: ConnectionId,
    sid: &[u8],
    total: &mut usize,
) -> (removed: bool)
    requires
        old(node).wf(),
        depth < toks@.len(),
        storable(suffix(toks@, depth as int)),
        old(node).at(suffix(toks@, depth as int)).len() <= *old(total),
    ensures
        final(node).wf(),
        removed_from(*old(node), *final(node), suffix(toks@, depth as int), conn_id@, sid@),
        removed == lists(old(node).at(suffix(toks@, depth as int)), conn_id@, sid@),
        *final(total) == *old(total) - (if removed {
            1int
        } else {
            0
        }),
    decreases toks@.len() - depth, 0nat,
{
    let ghost before = *node;
    let ghost path = suffix(toks@, depth as int);
    proof {
        lemma_suffix(toks@, depth as int);
    }
    let token: &[u8] = toks[depth];
    if is_greater(token) {
        let removed = node.rest.remove_sub(conn_id, sid);
        if removed {
            *total = *total - 1;
        }
        assert forall|p: Seq<Seq<u8>>| #[trigger] node.at(p) == (if p == path {
            less(before.at(p), conn_id@, sid@)
        } else {
            before.at(p)
        }) by {
            if p.len() == 1 && p[0] == subject::greater() {
                assert(p =~= path);
            }
        }
        return removed;
    }
    if is_star(token) {
        let mut star: Box<Node> = match node.star.take() {
            Some(c) => c,
            None => {
                assert(before.at(path).len() == 0);
                assert(less(before.at(path), conn_id@, sid@) =~= before.at(path));
                assert(*node == before);
                return false;
            },
        };
        let ghost child_before = *star;
        let removed = step_or_remove(&mut *star, toks, depth, conn_id, sid, total);
        let ghost child_after = *star;
        if star.is_empty() {
            proof {
                lemma_vacant(child_after);
            }
            node.star = None;
        } else {
            node.star = Some(star);
        }
        assert forall|p: Seq<Seq<u8>>| #[trigger] node.at(p) == (if p == path {
            less(before.at(p), conn_id@, sid@)
        } else {
            before.at(p)
        }) by {
            if p.len() > 0 && p[0] == subject::star() {
                if p.skip(1) == path.skip(1) {
                    lemma_same_pattern(p, path);
                }
                assert(node.at(p) =~= child_after.at(p.skip(1)));
                assert(before.at(p) == child_before.at(p.skip(1)));
            }
        }
        removed
    } else {
        let i: usize = match node.find_child(token) {
            Some(i) => i,
            None => {
                assert(before.at(path).len() == 0);
                assert(less(before.at(path), conn_id@, sid@) =~= before.at(path));
                return false;
            },
        };
        let ghost child_before = *before.children@[i as int].1;
        proof {
            lemma_child(before.children@, i as int);
        }
        let removed = step_or_remove(&mut node.children[i].1, toks, depth, conn_id, sid, total);
        let ghost walked = *node;
        let ghost child_after = *walked.children@[i as int].1;
        proof {
            lemma_child_replaced(before.children@, walked.children@, i as int);
        }
        if node.children[i].1.is_empty() {
            proof {
                lemma_vacant(child_after);
                lemma_child_removed(walked.children@, i as int);
            }
            node.children.remove(i);
            assert(forall|j: int|
                0 <= j < i ==> #[trigger] node.children@[j] == walked.children@[j]);
            assert(forall|j: int|
                i <= j < node.children@.len() ==> #[trigger] node.children@[j]
                    == walked.children@[j + 1]);
        }
        assert forall|p: Seq<Seq<u8>>| #[trigger] node.at(p) == (if p == path {
            less(before.at(p), conn_id@, sid@)
        } else {
            before.at(p)
        }) by {
            if p.len() > 0 && p[0] == token@ {
                if p.skip(1) == path.skip(1) {
                    lemma_same_pattern(p, path);
                }
                assert(node.at(p) =~= child_after.at(p.skip(1)));
                assert(before.at(p) == child_before.at(p.skip(1)));
            } else if p.len() > 0 && !subject::is_wildcard(p[0]) {
                assert(child(node.children@, p[0]) == child(before.children@, p[0]));
            }
        }
        removed
    }
}

/// Removes from the child that the token at `depth` leads to: here if that
/// was the last token, else further down.
fn step_or_remove(
    child: &mut Node,
    toks: &[&[u8]],
    depth: usize,
    conn_id: ConnectionId,
    sid: &[u8],
    total: &mut usize,
) -> (removed: bool)
    requires
        old(child).wf(),
        depth < toks@.len(),
        storable(suffix(toks@, depth + 1)),
        old(child).at(suffix(toks@, depth + 1)).len() <= *old(total),
    ensures
        final(child).wf(),
        removed_from(*old(child), *final(child), suffix(toks@, depth + 1), conn_id@, sid@),
        removed == lists(old(child).at(suffix(toks@, depth + 1)), conn_id@, sid@),
        *final(total) == *old(total) - (if removed {
            1int
        } else {
            0
        }),
    decreases toks@.len() - depth - 1, 1nat,
{
    let ghost before = *child;
    let ghost path = suffix(toks@, depth + 1);
    if depth == toks.len() - 1 {
        let removed = child.exact.remove_sub(conn_id, sid);
        if removed {
            *total = *total - 1;
        }
        assert(path.len() == 0);
        assert forall|p: Seq<Seq<u8>>| #[trigger] child.at(p) == (if p == path {
            less(before.at(p), conn_id@, sid@)
        } else {
            before.at(p)
        }) by {
            if p.len() == 0 {
                assert(p =~= path);
            }
        }
        removed
    } else {
        unsubscribe_walk(child, toks, depth + 1, conn_id, sid, total)
    }
}

/// `pattern` begins with `prefix`.
spec fn begins(pattern: Seq<Seq<u8>>, prefix: Seq<Seq<u8>>) -> bool {
    prefix.len() <= pattern.len() && pattern.take(prefix.len() as int) == prefix
}

/// What is stored under `token` and then `p`.
spec fn below(
    children: Seq<(Box<[u8]>, Box<Node>)>,
    token: Seq<u8>,
    p: Seq<Seq<u8>>,
) -> Seq<SubView> {
    match child(children, token) {
        Some(c) => c.at(p),
        None => Seq::empty(),
    }
}

/// The children are distinct literals and well formed, though some may be
/// vacant.
spec fn unpruned(children: Seq<(Box<[u8]>, Box<Node>)>) -> bool {
    &&& distinct(children)
    &&& forall|i: int|
        0 <= i < children.len() ==> {
            &&& !subject::is_wildcard((#[trigger] children[i]).0@)
            &&& children[i].1.wf()
        }
}

/// Takes the vacant children out. What is stored stays.
fn prune(children: &mut Vec<(Box<[u8]>, Box<Node>)>)
    requires
        unpruned(old(children)@),
    ensures
        unpruned(final(children)@),
        forall|i: int|
            0 <= i < final(children)@.len() ==> !(#[trigger] final(children)@[i]).1.vacant(),
        forall|t: Seq<u8>, p: Seq<Seq<u8>>| #[trigger]
            below(final(children)@, t, p) == below(old(children)@, t, p),
{
    let mut i: usize = 0;
    while i < children.len()
        invariant
            i <= children@.len(),
            unpruned(children@),
            forall|j: int| 0 <= j < i ==> !(#[trigger] children@[j]).1.vacant(),
            forall|t: Seq<u8>, p: Seq<Seq<u8>>| #[trigger]
                below(children@, t, p) == below(old(children)@, t, p),
        decreases children@.len() - i,
    {
        if children[i].1.is_empty() {
            let ghost before = children@;
            proof {
                lemma_vacant(*before[i as int].1);
                lemma_child(before, i as int);
                lemma_child_removed(before, i as int);
            }
            children.remove(i);
            assert(forall|j: int| 0 <= j < i ==> #[trigger] children@[j] == before[j]);
            assert(forall|j: int|
                i <= j < children@.len() ==> #[trigger] children@[j] == before[j + 1]);
            assert forall|t: Seq<u8>, p: Seq<Seq<u8>>| #[trigger]
                below(children@, t, p) == below(old(children)@, t, p) by {
                assert(below(before, t, p) == below(old(children)@, t, p));
                if t == before[i as int].0@ {
                    assert(below(before, t, p) =~= Seq::<SubView>::empty());
                }
            }
        } else {
            i += 1;
        }
    }
}

/// `node` stores what `log` has under the patterns that begin with `prefix`.
spec fn stores(node: Node, prefix: Seq<Seq<u8>>, log: Seq<Entry>) -> bool {
    forall|p: Seq<Seq<u8>>| #[trigger] node.at(p) == matching::under(log, prefix + p)
}

/// `pattern` is stored in the node at `prefix` itself, below its `*`, or below
/// one of its first `n` children.
spec fn passed(
    children: Seq<(Box<[u8]>, Box<Node>)>,
    n: int,
    prefix: Seq<Seq<u8>>,
    pattern: Seq<Seq<u8>>,
) -> bool {
    ||| pattern == prefix
    ||| pattern == prefix.push(subject::greater())
    ||| begins(pattern, prefix.push(subject::star()))
    ||| exists|j: int| 0 <= j < n && begins(pattern, prefix.push((#[trigger] children[j]).0@))
}

/// A pattern that goes on behind `prefix` goes on with one token.
proof fn lemma_begins(pattern: Seq<Seq<u8>>, prefix: Seq<Seq<u8>>, token: Seq<u8>)
    ensures
        begins(pattern, prefix.push(token)) == (begins(pattern, prefix) && pattern.len()
            > prefix.len() && pattern[prefix.len() as int] == token),
{
    let n = prefix.len() as int;
    if begins(pattern, prefix.push(token)) {
        assert(pattern.take(n + 1) == prefix.push(token));
        assert(pattern.take(n) =~= pattern.take(n + 1).take(n));
        assert(prefix.push(token).take(n) =~= prefix);
        assert(pattern.take(n + 1)[n] == token);
    }
    if begins(pattern, prefix) && pattern.len() > n && pattern[n] == token {
        assert(pattern.take(n + 1) =~= pattern.take(n).push(token));
    }
}

/// A pattern of the log that begins with `prefix` is stored in the node at
/// `prefix` or below it.
proof fn lemma_all_passed(node: Node, prefix: Seq<Seq<u8>>, log: Seq<Entry>, i: int)
    requires
        node.wf(),
        stores(node, prefix, log),
        0 <= i < log.len(),
    ensures
        passed(node.children@, node.children@.len() as int, prefix, log[i].pattern) == begins(
            log[i].pattern,
            prefix,
        ),
        node.star is None ==> !begins(log[i].pattern, prefix.push(subject::star())),
{
    let q = log[i].pattern;
    let n = prefix.len() as int;
    assert(subject::star() != subject::greater()) by {
        assert(subject::star()[0] != subject::greater()[0]);
    }
    lemma_begins(q, prefix, subject::star());
    lemma_begins(q, prefix, subject::greater());
    if passed(node.children@, node.children@.len() as int, prefix, q) {
        if q == prefix {
            assert(q.take(n) =~= prefix);
        } else if q == prefix.push(subject::greater()) {
            assert(q.take(n + 1) =~= q);
        } else if exists|j: int|
            0 <= j < node.children@.len() && begins(
                q,
                prefix.push((#[trigger] node.children@[j]).0@),
            ) {
            let j = choose|j: int|
                0 <= j < node.children@.len() && begins(
                    q,
                    prefix.push((#[trigger] node.children@[j]).0@),
                );
            lemma_begins(q, prefix, node.children@[j].0@);
        }
    }
    if begins(q, prefix) {
        let p = q.skip(n);
        assert(prefix + p =~= q);
        matching::lemma_listed(log, i);
        assert(node.at(p).len() > 0) by {
            assert(node.at(p) == matching::under(log, q));
            let s = matching::under(log, q);
            assert(s.contains(log[i].sub));
        }
        if p.len() == 0 {
            assert(q =~= prefix);
        } else {
            assert(p[0] == q[n]);
            if p[0] == subject::greater() {
                assert(p.len() == 1);
                assert(q =~= prefix.push(subject::greater()));
            } else if p[0] != subject::star() {
                let j = choose|j: int|
                    0 <= j < node.children@.len() && #[trigger] node.children@[j].0@ == p[0];
                assert(node.children@[j].0@ == p[0]);
                lemma_begins(q, prefix, p[0]);
                assert(begins(q, prefix.push(node.children@[j].0@)));
            }
        }
    }
}

/// What is stored below a token is what the log has under the patterns that
/// go on with it.
proof fn lemma_stores_below(node: Node, prefix: Seq<Seq<u8>>, log: Seq<Entry>, token: Seq<u8>, c: Node)
    requires
        stores(node, prefix, log),
        forall|p: Seq<Seq<u8>>| #[trigger] c.at(p) == node.at(seq![token] + p),
    ensures
        stores(c, prefix.push(token), log),
{
    assert forall|p: Seq<Seq<u8>>| #[trigger] c.at(p) == matching::under(
        log,
        prefix.push(token) + p,
    ) by {
        assert(prefix.push(token) + p =~= prefix + (seq![token] + p));
        assert(node.at(seq![token] + p) == matching::under(log, prefix + (seq![token] + p)));
    }
}

/// Removes every subscription of `conn_id` from `node` and below, prunes the
/// nodes that become empty, and tells how many subscriptions went.
fn leave_walk(
    node: &mut Node,
    conn_id: ConnectionId,
    Ghost(prefix): Ghost<Seq<Seq<u8>>>,
    Ghost(log): Ghost<Seq<Entry>>,
) -> (gone: usize)
    requires
        old(node).wf(),
        stores(*old(node), prefix, log),
        log.len() <= usize::MAX,
    ensures
        final(node).wf(),
        forall|p: Seq<Seq<u8>>| #[trigger]
            final(node).at(p) == not_of(old(node).at(p), conn_id@),
        gone == matching::count_of(log, conn_id@, |p: Seq<Seq<u8>>| begins(p, prefix)),
    decreases *old(node),
{
    let ghost before = *node;
    let ghost id = conn_id@;
    let ghost kids = before.children@;
    let ghost none = Seq::<Seq<u8>>::empty();
    let ghost anchored = prefix.push(subject::greater());
    let ghost starred = prefix.push(subject::star());
    let ghost at_exact = |p: Seq<Seq<u8>>| p == prefix;
    let ghost at_rest = |p: Seq<Seq<u8>>| p == anchored;
    let ghost at_node = |p: Seq<Seq<u8>>| p == prefix || p == anchored;
    let ghost at_star = |p: Seq<Seq<u8>>| begins(p, starred);
    let ghost at_start = |p: Seq<Seq<u8>>| passed(kids, 0, prefix, p);
    proof {
        assert(subject::star() != subject::greater()) by {
            assert(subject::star()[0] != subject::greater()[0]);
        }
        assert(prefix + none =~= prefix);
        assert(prefix + seq![subject::greater()] =~= anchored);
        assert(before.at(none) == matching::under(log, prefix + none));
        assert(before.at(seq![subject::greater()]) == matching::under(
            log,
            prefix + seq![subject::greater()],
        ));
        matching::lemma_count_under(log, id, prefix);
        matching::lemma_count_under(log, id, anchored);
        matching::lemma_count_adds(log, id, at_exact, at_rest, at_node);
        assert forall|i: int| 0 <= i < log.len() implies {
            let p = (#[trigger] log[i]).pattern;
            !(at_node(p) && at_star(p)) && at_start(p) == (at_node(p) || at_star(p))
        } by {
            lemma_begins(log[i].pattern, prefix, subject::star());
        }
        matching::lemma_count_adds(log, id, at_node, at_star, at_start);
    }
    let mut gone: usize = node.exact.remove_connection(conn_id);
    gone = gone + node.rest.remove_connection(conn_id);
    match node.star.take() {
        Some(c) => {
            let mut star: Box<Node> = c;
            let ghost star_before = *star;
            proof {
                assert forall|p: Seq<Seq<u8>>| #[trigger] star_before.at(p) == before.at(
                    seq![subject::star()] + p,
                ) by {
                    assert((seq![subject::star()] + p).skip(1) =~= p);
                }
                lemma_stores_below(before, prefix, log, subject::star(), star_before);
            }
            gone = gone + leave_walk(&mut *star, conn_id, Ghost(starred), Ghost(log));
            let ghost star_after = *star;
            if !star.is_empty() {
                node.star = Some(star);
            } else {
                proof {
                    lemma_vacant(star_after);
                }
            }
            assert forall|p: Seq<Seq<u8>>|
                p.len() > 0 && p[0] == subject::star() implies #[trigger] node.at(p) == not_of(
                before.at(p),
                id,
            ) by {
                assert(star_after.at(p.skip(1)) == not_of(star_before.at(p.skip(1)), id));
                assert(node.at(p) =~= star_after.at(p.skip(1)));
            }
        },
        None => {
            assert forall|p: Seq<Seq<u8>>|
                p.len() > 0 && p[0] == subject::star() implies #[trigger] node.at(p) == not_of(
                before.at(p),
                id,
            ) by {
                assert(not_of(before.at(p), id) =~= Seq::<SubView>::empty());
            }
            proof {
                assert forall|i: int| 0 <= i < log.len() implies !at_star(
                    (#[trigger] log[i]).pattern,
                ) by {
                    lemma_all_passed(before, prefix, log, i);
                }
                matching::lemma_count_none(log, id, at_star);
            }
        },
    }
    let ghost mid = *node;
    let mut i: usize = 0;
    while i < node.children.len()
        invariant
            i <= kids.len(),
            node.children@.len() == kids.len(),
            before == *old(node),
            kids == before.children@,
            before.wf(),
            stores(before, prefix, log),
            log.len() <= usize::MAX,
            id == conn_id@,
            node.exact == mid.exact,
            node.rest == mid.rest,
            node.star == mid.star,
            gone == matching::count_of(
                log,
                id,
                |p: Seq<Seq<u8>>| passed(kids, i as int, prefix, p),
            ),
            forall|j: int|
                0 <= j < i ==> (#[trigger] node.children@[j]).0@ == kids[j].0@
                    && node.children@[j].1.wf(),
            forall|j: int, p: Seq<Seq<u8>>|
                0 <= j < i ==> #[trigger] node.children@[j].1.at(p) == not_of(
                    kids[j].1.at(p),
                    id,
                ),
            forall|j: int| i <= j < kids.len() ==> #[trigger] node.children@[j] == kids[j],
        decreases kids.len() - i,
    {
        let ghost token = kids[i as int].0@;
        let ghost next = prefix.push(token);
        let ghost c = *kids[i as int].1;
        proof {
            lemma_child(kids, i as int);
            assert forall|p: Seq<Seq<u8>>| #[trigger] c.at(p) == before.at(seq![token] + p) by {
                assert((seq![token] + p).skip(1) =~= p);
            }
            lemma_stores_below(before, prefix, log, token, c);
            let so_far = |p: Seq<Seq<u8>>| passed(kids, i as int, prefix, p);
            let here = |p: Seq<Seq<u8>>| begins(p, next);
            let after = |p: Seq<Seq<u8>>| passed(kids, i + 1, prefix, p);
            assert forall|k: int| 0 <= k < log.len() implies {
                let p = (#[trigger] log[k]).pattern;
                !(so_far(p) && here(p)) && after(p) == (so_far(p) || here(p))
            } by {
                lemma_passed_step(kids, i as int, prefix, log[k].pattern);
            }
            matching::lemma_count_adds(log, id, so_far, here, after);
        }
        let ghost walked = node.children@;
        let more: usize = leave_walk(&mut node.children[i].1, conn_id, Ghost(next), Ghost(log));
        gone = gone + more;
        assert(forall|j: int|
            0 <= j < kids.len() && j != i ==> #[trigger] node.children@[j] == walked[j]);
        i += 1;
    }
    let ghost unpruned_children = node.children@;
    assert(distinct(unpruned_children));
    prune(&mut node.children);
    proof {
        let all = |p: Seq<Seq<u8>>| passed(kids, kids.len() as int, prefix, p);
        let whole = |p: Seq<Seq<u8>>| begins(p, prefix);
        let nothing = |p: Seq<Seq<u8>>| false;
        assert forall|k: int| 0 <= k < log.len() implies {
            let p = (#[trigger] log[k]).pattern;
            !(all(p) && nothing(p)) && whole(p) == (all(p) || nothing(p))
        } by {
            lemma_all_passed(before, prefix, log, k);
        }
        matching::lemma_count_adds(log, id, all, nothing, whole);
        matching::lemma_count_none(log, id, nothing);
    }
    assert forall|p: Seq<Seq<u8>>| #[trigger] node.at(p) == not_of(before.at(p), id) by {
        if p.len() == 0 {
        } else if p[0] == subject::greater() {
            if p.len() > 1 {
                assert(not_of(before.at(p), id) =~= Seq::<SubView>::empty());
            }
        } else if p[0] == subject::star() {
            assert(node.at(p) == mid.at(p));
        } else {
            let rest = p.skip(1);
            assert(node.at(p) == below(node.children@, p[0], rest));
            assert(below(node.children@, p[0], rest) == below(unpruned_children, p[0], rest));
            if exists|j: int| 0 <= j < kids.len() && #[trigger] kids[j].0@ == p[0] {
                let j = choose|j: int| 0 <= j < kids.len() && #[trigger] kids[j].0@ == p[0];
                lemma_child(kids, j);
                lemma_child(unpruned_children, j);
                assert(unpruned_children[j].1.at(rest) == not_of(kids[j].1.at(rest), id));
            } else {
                assert forall|j: int| 0 <= j < unpruned_children.len() implies
                    #[trigger] unpruned_children[j].0@ != p[0] by {
                    assert(unpruned_children[j].0@ == kids[j].0@);
                }
                assert(not_of(before.at(p), id) =~= Seq::<SubView>::empty());
            }
        }
    }
    gone
}

/// One more child is passed.
proof fn lemma_passed_step(
    children: Seq<(Box<[u8]>, Box<Node>)>,
    i: int,
    prefix: Seq<Seq<u8>>,
    pattern: Seq<Seq<u8>>,
)
    requires
        unpruned(children),
        0 <= i < children.len(),
    ensures
        !(passed(children, i, prefix, pattern) && begins(
            pattern,
            prefix.push(children[i].0@),
        )),
        passed(children, i + 1, prefix, pattern) == (passed(children, i, prefix, pattern)
            || begins(pattern, prefix.push(children[i].0@))),
{
    let token = children[i].0@;
    lemma_begins(pattern, prefix, token);
    lemma_begins(pattern, prefix, subject::star());
    assert(!subject::is_wildcard(token));
    if begins(pattern, prefix.push(token)) {
        assert(begins(pattern, prefix.push(children[i].0@)));
        assert forall|j: int| 0 <= j < i implies !begins(
            pattern,
            prefix.push((#[trigger] children[j]).0@),
        ) by {
            lemma_begins(pattern, prefix, children[j].0@);
        }
        assert(pattern != prefix.push(subject::greater())) by {
            assert(prefix.push(subject::greater())[prefix.len() as int] == subject::greater());
        }
    }
}

/// What the subscriptions of a list say, one by one.
pub open spec fn said(subs: Seq<&Sub>) -> Seq<SubView> {
    subs.map_values(|s: &Sub| s@)
}

/// Appends the subscribers of a bucket to `out`.
fn append_all<'a>(list: &'a SubList, out: &mut Vec<&'a Sub>)
    ensures
        said(final(out)@) == said(old(out)@) + list@,
{
    let subs = list.as_slice();
    let ghost before = said(out@);
    let mut i: usize = 0;
    assert(said(out@) =~= before + list@.take(0));
    while i < subs.len()
        invariant
            subs@ == held_subs(*list),
            i <= subs@.len(),
            said(out@) == before + list@.take(i as int),
        decreases subs@.len() - i,
    {
        let ghost prior = out@;
        out.push(&subs[i]);
        assert(said(out@) =~= said(prior).push(list@[i as int]));
        assert(list@.take(i + 1) =~= list@.take(i as int).push(list@[i as int]));
        assert(said(out@) =~= before + list@.take(i + 1));
        i += 1;
    }
    assert(list@.take(i as int) =~= list@);
}

/// Appends the subscribers of `node` and below that the tokens from `depth`
/// on reach.
fn walk_match<'a>(node: &'a Node, toks: &[&[u8]], depth: usize, out: &mut Vec<&'a Sub>)
    requires
        node.wf(),
        depth <= toks@.len(),
        matching::is_literal(suffix(toks@, depth as int)),
    ensures
        said(final(out)@) == said(old(out)@) + matching::gathered(
            |p: Seq<Seq<u8>>| node.at(p),
            matching::candidates(suffix(toks@, depth as int)),
        ),
    decreases toks@.len() - depth,
{
    let ghost before = said(out@);
    let ghost path = suffix(toks@, depth as int);
    let ghost stored = |p: Seq<Seq<u8>>| node.at(p);
    if depth == toks.len() {
        append_all(&node.exact, out);
        proof {
            let all = matching::candidates(path);
            assert(path.len() == 0);
            assert(all[0].len() == 0);
            assert(all.skip(1) =~= Seq::<Seq<Seq<u8>>>::empty());
            assert(matching::gathered(stored, all.skip(1)) =~= Seq::<SubView>::empty());
            assert(matching::gathered(stored, all) =~= node.exact@);
        }
        return;
    }
    let ghost rest = suffix(toks@, depth + 1);
    let ghost further = matching::candidates(rest);
    let ghost anchored = seq![seq![subject::greater()]];
    let ghost literal = matching::prefixed(path[0], further);
    let ghost starred = matching::prefixed(subject::star(), further);
    proof {
        assert(path.skip(1) =~= rest);
        assert(path[0] == toks@[depth as int]@);
        assert forall|i: int| 0 <= i < rest.len() implies !subject::is_wildcard(
            #[trigger] rest[i],
        ) by {
            assert(rest[i] == path[i + 1]);
        }
        assert(!subject::is_wildcard(path[0]));
        assert(subject::star() != subject::greater()) by {
            assert(subject::star()[0] != subject::greater()[0]);
        }
        matching::lemma_gathered_add(stored, anchored + literal, starred);
        matching::lemma_gathered_add(stored, anchored, literal);
        assert(anchored.skip(1) =~= Seq::<Seq<Seq<u8>>>::empty());
        assert(matching::gathered(stored, anchored.skip(1)) =~= Seq::<SubView>::empty());
        assert(matching::gathered(stored, anchored) =~= node.rest@);
    }
    // Subscribers anchored with `.>` at this node match because at least one
    // more token is about to be consumed.
    append_all(&node.rest, out);
    match node.find_child(toks[depth]) {
        Some(i) => {
            let child_node: &Node = &node.children[i].1;
            proof {
                lemma_child(node.children@, i as int);
                let behind = |p: Seq<Seq<u8>>| child_node.at(p);
                assert forall|p: Seq<Seq<u8>>| #[trigger] behind(p) == stored(
                    seq![path[0]] + p,
                ) by {
                    assert((seq![path[0]] + p).skip(1) =~= p);
                }
                matching::lemma_gathered_prefixed(stored, behind, path[0], further);
            }
            walk_match(child_node, toks, depth + 1, out);
        },
        None => {
            proof {
                let behind = |p: Seq<Seq<u8>>| Seq::<SubView>::empty();
                assert forall|p: Seq<Seq<u8>>| #[trigger] behind(p) == stored(
                    seq![path[0]] + p,
                ) by {
                    assert((seq![path[0]] + p)[0] == path[0]);
                }
                matching::lemma_gathered_prefixed(stored, behind, path[0], further);
                matching::lemma_gathered_none(behind, further);
            }
        },
    }
    assert(said(out@) =~= before + (node.rest@ + matching::gathered(stored, literal)));
    match &node.star {
        Some(star) => {
            proof {
                let behind = |p: Seq<Seq<u8>>| star.at(p);
                assert forall|p: Seq<Seq<u8>>| #[trigger] behind(p) == stored(
                    seq![subject::star()] + p,
                ) by {
                    assert((seq![subject::star()] + p).skip(1) =~= p);
                }
                matching::lemma_gathered_prefixed(stored, behind, subject::star(), further);
            }
            walk_match(star, toks, depth + 1, out);
        },
        None => {
            proof {
                let behind = |p: Seq<Seq<u8>>| Seq::<SubView>::empty();
                assert forall|p: Seq<Seq<u8>>| #[trigger] behind(p) == stored(
                    seq![subject::star()] + p,
                ) by {
                    assert((seq![subject::star()] + p)[0] == subject::star());
                }
                matching::lemma_gathered_prefixed(stored, behind, subject::star(), further);
                matching::lemma_gathered_none(behind, further);
            }
        },
    }
    assert(said(out@) =~= before + (node.rest@ + matching::gathered(stored, literal)
        + matching::gathered(stored, starred)));
}

/// A node that is not vacant stores a subscriber under some pattern.
proof fn lemma_occupied(node: Node)
    requires
        node.wf(),
        !node.vacant(),
    ensures
        exists|p: Seq<Seq<u8>>| (#[trigger] node.at(p)).len() > 0,
    decreases node,
{
    assert(subject::star() != subject::greater()) by {
        assert(subject::star()[0] != subject::greater()[0]);
    }
    if node.exact@.len() > 0 {
        assert(node.at(Seq::empty()).len() > 0);
    } else if node.rest@.len() > 0 {
        assert(node.at(seq![subject::greater()]).len() > 0);
    } else if node.star is Some {
        let c = node.star->0;
        lemma_occupied(*c);
        let p = choose|p: Seq<Seq<u8>>| (#[trigger] c.at(p)).len() > 0;
        let q = seq![subject::star()] + p;
        assert(q.skip(1) =~= p);
        assert(node.at(q).len() > 0);
    } else {
        let entry = node.children@[0];
        assert(!subject::is_wildcard(entry.0@));
        lemma_occupied(*entry.1);
        lemma_child(node.children@, 0);
        let p = choose|p: Seq<Seq<u8>>| (#[trigger] entry.1.at(p)).len() > 0;
        let q = seq![entry.0@] + p;
        assert(q.skip(1) =~= p);
        assert(node.at(q).len() > 0);
    }
}

/// The node that a path of literal tokens and `*` leads to.
spec fn node_at(node: Node, path: Seq<Seq<u8>>) -> Option<Node>
    decreases path.len(),
{
    if path.len() == 0 {
        Some(node)
    } else if path[0] == subject::greater() {
        None
    } else if path[0] == subject::star() {
        match node.star {
            Some(c) => node_at(*c, path.skip(1)),
            None => None,
        }
    } else {
        match child(node.children@, path[0]) {
            Some(c) => node_at(c, path.skip(1)),
            None => None,
        }
    }
}

/// What is stored under a path and more tokens is stored in the node that the
/// path leads to, and below the root that node is not vacant.
proof fn lemma_node_at(node: Node, path: Seq<Seq<u8>>, more: Seq<Seq<u8>>)
    requires
        node.wf(),
        node_at(node, path) is Some,
    ensures
        node_at(node, path)->0.wf(),
        path.len() > 0 ==> !node_at(node, path)->0.vacant(),
        !path.contains(subject::greater()),
        node.at(path + more) == node_at(node, path)->0.at(more),
    decreases path.len(),
{
    let whole = path + more;
    if path.len() == 0 {
        assert(whole =~= more);
    } else {
        let c: Node = if path[0] == subject::star() {
            *node.star->0
        } else {
            child(node.children@, path[0])->0
        };
        assert(c.wf() && !c.vacant());
        lemma_node_at(c, path.skip(1), more);
        assert(whole.skip(1) =~= path.skip(1) + more);
        assert(whole[0] == path[0]);
        assert forall|i: int| 0 <= i < path.len() implies #[trigger] path[i]
            != subject::greater() by {
            if i > 0 {
                assert(path.skip(1)[i - 1] == path[i]);
                assert(path.skip(1).contains(path[i]));
            }
        }
    }
}

/// A node stands along the whole way to a pattern that something is stored
/// under.
proof fn lemma_way_to(node: Node, pattern: Seq<Seq<u8>>, path: Seq<Seq<u8>>)
    requires
        node.at(pattern).len() > 0,
        leads_along(path, pattern),
    ensures
        node_at(node, path) is Some,
    decreases path.len(),
{
    if path.len() > 0 {
        assert(pattern[0] == pattern.take(path.len() as int)[0]);
        assert(path.contains(path[0]));
        let c: Node = if path[0] == subject::star() {
            *node.star->0
        } else {
            child(node.children@, path[0])->0
        };
        let p = pattern.skip(1);
        let q = path.skip(1);
        assert(p.take(q.len() as int) =~= pattern.take(path.len() as int).skip(1));
        assert forall|i: int| 0 <= i < q.len() implies #[trigger] q[i] != subject::greater() by {
            assert(path.contains(path[i + 1]));
        }
        lemma_way_to(c, p, q);
    }
}

/// `path` is the way to `pattern`, or a part of it from the root on. A final
/// `>` is no part of the way: it is kept where the tokens before it lead.
pub open spec fn leads_along(path: Seq<Seq<u8>>, pattern: Seq<Seq<u8>>) -> bool {
    &&& path.len() <= pattern.len()
    &&& pattern.take(path.len() as int) == path
    &&& !path.contains(subject::greater())
}

/// Subscription trie.
///
/// Its view is the list of live subscriptions, each with the tokens of the
/// pattern it was made under, in order of arrival.
pub struct SubscriptionTrie {
    root: Node,
    total_subscriptions: usize,
    log: Ghost<Seq<Entry>>,
}

impl View for SubscriptionTrie {
    type V = Seq<Entry>;

    closed spec fn view(&self) -> Seq<Entry> {
        self.log@
    }
}

impl SubscriptionTrie {
    /// The nodes store exactly the live subscriptions, and no node below the
    /// root is empty.
    pub closed spec fn wf(self) -> bool {
        &&& self.root.wf()
        &&& self.total_subscriptions == self.log@.len()
        &&& forall|p: Seq<Seq<u8>>| #[trigger] self.root.at(p) == matching::under(self.log@, p)
    }

    /// A node stands at the end of a path of literal tokens and `*`.
    pub closed spec fn has_node(self, path: Seq<Seq<u8>>) -> bool {
        node_at(self.root, path) is Some
    }

    /// The node at the end of a path is empty: no subscriber ends there or is
    /// anchored there, and it has no literal child and no `*` child.
    pub closed spec fn is_bare(self, path: Seq<Seq<u8>>) -> bool {
        node_at(self.root, path) matches Some(n) && n.vacant()
    }

    /// Creates an empty trie.
    #[must_use]
    pub fn new() -> (r: Self)
        ensures
            r.wf(),
            r@ == Seq::<Entry>::empty(),
    {
        let r = SubscriptionTrie {
            root: Node::new(),
            total_subscriptions: 0,
            log: Ghost(Seq::empty()),
        };
        assert forall|p: Seq<Seq<u8>>| #[trigger] r.root.at(p) == matching::under(r.log@, p) by {
            matching::lemma_under_len(r.log@, p);
            assert(r.root.at(p) =~= matching::under(r.log@, p));
        }
        r
    }

    /// Total number of subscriptions across all subjects.
    #[must_use]
    pub fn total_subscriptions(&self) -> (n: usize)
        requires
            self.wf(),
        ensures
            n == self@.len(),
    {
        self.total_subscriptions
    }

    /// True if there is no subscription. Nothing is left behind by
    /// subscriptions that are gone: the root is then without children.
    #[must_use]
    pub fn is_empty(&self) -> (r: bool)
        requires
            self.wf(),
        ensures
            r == (self@.len() == 0),
    {
        proof {
            law_no_empty_node(*self, Seq::empty());
        }
        self.root.is_empty()
    }

    /// Adds `sub` under the (possibly wildcarded) `subject`.
    ///
    /// Returns `Err(SubjectError)` if the subject is malformed:
    /// empty, contains an empty token (leading/trailing/`..`), or has
    /// `>` anywhere other than the final token. `*` and `>` tokens
    /// are accepted as wildcards on this side.
    pub fn subscribe(&mut self, subject: &[u8], sub: Sub) -> (r: Result<(), SubjectError>)
        requires
            old(self).wf(),
            old(self)@.len() < MAX_ITEMS,
            subject::tokens(subject@).len() <= MAX_ITEMS,
        ensures
            final(self).wf(),
            match subject::subscribed(subject@) {
                Ok(pattern) => r is Ok && final(self)@ == old(self)@.push(Entry { pattern, sub: sub@ }),
                Err(e) => r == Err::<(), SubjectError>(e) && final(self)@ == old(self)@,
            },
    {
        let tokens = match parse_subscriber_subject(subject) {
            Ok(tokens) => tokens,
            Err(e) => return Err(e),
        };
        let toks = tokens.as_slice();
        let ghost pattern = subject::tokens(subject@);
        let ghost before = self.log@;
        proof {
            assert(suffix(toks@, 0) =~= pattern);
            matching::lemma_under_len(before, pattern);
        }
        subscribe_walk(&mut self.root, toks, 0, sub);
        self.total_subscriptions = self.total_subscriptions + 1;
        self.log = Ghost(before.push(Entry { pattern, sub: sub@ }));
        assert forall|p: Seq<Seq<u8>>| #[trigger]
            self.root.at(p) == matching::under(self.log@, p) by {
            matching::lemma_under_push(before, Entry { pattern, sub: sub@ }, p);
        }
        Ok(())
    }

    /// Removes one `(conn_id, sid)` subscription from `subject`, the oldest.
    /// Returns `true` if a subscription was removed. Prunes any
    /// trie nodes that become empty as a result.
    pub fn unsubscribe(&mut self, subject: &[u8], conn_id: ConnectionId, sid: &[u8]) -> (removed:
        bool)
        requires
            old(self).wf(),
            subject::tokens(subject@).len() <= MAX_ITEMS,
        ensures
            final(self).wf(),
            match subject::subscribed(subject@) {
                Ok(pattern) => {
                    &&& final(self)@ == matching::without(old(self)@, pattern, conn_id@, sid@)
                    &&& removed == matching::has_entry(old(self)@, pattern, conn_id@, sid@)
                    &&& final(self)@.len() == old(self)@.len() - (if removed {
                        1int
                    } else {
                        0
                    })
                },
                Err(_) => !removed && final(self)@ == old(self)@,
            },
    {
        let tokens = match parse_subscriber_subject(subject) {
            Ok(tokens) => tokens,
            Err(_) => return false,
        };
        let toks = tokens.as_slice();
        let ghost pattern = subject::tokens(subject@);
        let ghost before = self.log@;
        proof {
            subject::lemma_token_count(subject@);
            assert(suffix(toks@, 0) =~= pattern);
            matching::lemma_under_len(before, pattern);
            matching::lemma_under_without(before, pattern, conn_id@, sid@);
        }
        let removed = unsubscribe_walk(
            &mut self.root,
            toks,
            0,
            conn_id,
            sid,
            &mut self.total_subscriptions,
        );
        self.log = Ghost(matching::without(before, pattern, conn_id@, sid@));
        removed
    }

    /// Removes every subscription of `conn_id`, under whatever subject, and
    /// prunes the nodes that become empty. The others stay, in their order.
    pub fn remove_connection(&mut self, conn_id: ConnectionId)
        requires
            old(self).wf(),
        ensures
            final(self).wf(),
            final(self)@ == matching::without_connection(old(self)@, conn_id@),
    {
        let ghost before = self.log@;
        let ghost top = Seq::<Seq<u8>>::empty();
        proof {
            assert forall|p: Seq<Seq<u8>>| #[trigger] self.root.at(p) == matching::under(
                before,
                top + p,
            ) by {
                assert(top + p =~= p);
            }
            let whole = |p: Seq<Seq<u8>>| begins(p, top);
            let every = |p: Seq<Seq<u8>>| true;
            let nothing = |p: Seq<Seq<u8>>| false;
            assert forall|i: int| 0 <= i < before.len() implies {
                let p = (#[trigger] before[i]).pattern;
                !(whole(p) && nothing(p)) && every(p) == (whole(p) || nothing(p))
            } by {
                assert(before[i].pattern.take(0) =~= top);
            }
            matching::lemma_count_adds(before, conn_id@, whole, nothing, every);
            matching::lemma_count_none(before, conn_id@, nothing);
            matching::lemma_without_connection_len(before, conn_id@);
        }
        let gone: usize = leave_walk(&mut self.root, conn_id, Ghost(top), Ghost(before));
        self.total_subscriptions = self.total_subscriptions - gone;
        self.log = Ghost(matching::without_connection(before, conn_id@));
        assert forall|p: Seq<Seq<u8>>| #[trigger]
            self.root.at(p) == matching::under(self.log@, p) by {
            matching::lemma_under_without_connection(before, conn_id@, p);
        }
    }

    /// The subscribers matching the literal `subject`, in the order in which
    /// the walk meets them: at each level those anchored with `.>`, then those
    /// below the literal token, then those below `*`.
    ///
    /// Returns `Err(SubjectError)` if `subject` is malformed or
    /// contains a wildcard token (publishers are not allowed to
    /// publish to wildcards).
    pub fn for_each_match(&self, subject: &[u8]) -> (r: Result<Vec<&Sub>, SubjectError>)
        requires
            self.wf(),
            subject::tokens(subject@).len() <= MAX_ITEMS,
        ensures
            match subject::published(subject@) {
                Ok(tokens) => r matches Ok(subs) && said(subs@) == matching::matched(
                    self@,
                    tokens,
                ),
                Err(e) => r matches Err(got) && got == e,
            },
    {
        let tokens = match parse_publisher_subject(subject) {
            Ok(tokens) => tokens,
            Err(e) => return Err(e),
        };
        let toks = tokens.as_slice();
        let mut out: Vec<&Sub> = Vec::new();
        proof {
            let subject_tokens = subject::tokens(subject@);
            subject::lemma_publish_fault(subject_tokens);
            assert(suffix(toks@, 0) =~= subject_tokens);
            matching::lemma_gathered_same(
                |p: Seq<Seq<u8>>| self.root.at(p),
                |p: Seq<Seq<u8>>| matching::under(self@, p),
                matching::candidates(subject_tokens),
            );
        }
        walk_match(&self.root, toks, 0, &mut out);
        assert(said(out@) =~= matching::matched(self@, subject::tokens(subject@)));
        Ok(out)
    }
}

/// No node below the root is empty, whatever subscriptions have come and gone,
/// and the root is empty if and only if there is no subscription.
pub proof fn law_no_empty_node(trie: SubscriptionTrie, path: Seq<Seq<u8>>)
    requires
        trie.wf(),
    ensures
        path.len() > 0 ==> !trie.is_bare(path),
        path.len() == 0 ==> trie.is_bare(path) == (trie@.len() == 0),
{
    if trie.has_node(path) {
        lemma_node_at(trie.root, path, Seq::empty());
    }
    if path.len() == 0 {
        if trie.root.vacant() {
            lemma_vacant(trie.root);
            if trie@.len() > 0 {
                matching::lemma_under_last(trie@);
                assert(trie.root.at(trie@.last().pattern).len() == 0);
            }
        } else {
            lemma_occupied(trie.root);
            let p = choose|p: Seq<Seq<u8>>| (#[trigger] trie.root.at(p)).len() > 0;
            matching::lemma_under_len(trie@, p);
        }
    }
}

/// A subscription that comes into an empty trie and goes again leaves the root
/// empty.
pub proof fn law_coming_and_going_leaves_nothing(trie: SubscriptionTrie, e: Entry)
    requires
        trie.wf(),
        trie@ == matching::without(
            Seq::<Entry>::empty().push(e),
            e.pattern,
            e.sub.conn_id,
            e.sub.sid,
        ),
    ensures
        trie.is_bare(Seq::empty()),
{
    matching::law_unsubscribe_undoes_subscribe(Seq::empty(), e);
    law_no_empty_node(trie, Seq::empty());
}

/// The nodes below the root are those that live subscriptions need, and no
/// others: what a subscription made is cut off as soon as the last one that
/// needs it is gone, and nothing that another one needs is.
pub proof fn law_nodes_are_those_in_use(trie: SubscriptionTrie, path: Seq<Seq<u8>>)
    requires
        trie.wf(),
        path.len() > 0,
    ensures
        trie.has_node(path) == exists|i: int|
            0 <= i < trie@.len() && leads_along(path, (#[trigger] trie@[i]).pattern),
{
    if trie.has_node(path) {
        let n = node_at(trie.root, path)->0;
        lemma_node_at(trie.root, path, Seq::empty());
        lemma_occupied(n);
        let more = choose|p: Seq<Seq<u8>>| (#[trigger] n.at(p)).len() > 0;
        lemma_node_at(trie.root, path, more);
        let pattern = path + more;
        assert(matching::under(trie@, pattern).len() > 0);
        let i = matching::lemma_entry_under(trie@, pattern);
        assert(pattern.take(path.len() as int) =~= path);
        assert(leads_along(path, trie@[i].pattern));
    }
    assert forall|i: int|
        0 <= i < trie@.len() && leads_along(path, (#[trigger] trie@[i]).pattern) implies
        trie.has_node(path) by {
        matching::lemma_listed(trie@, i);
        assert(trie.root.at(trie@[i].pattern) == matching::under(trie@, trie@[i].pattern));
        lemma_way_to(trie.root, trie@[i].pattern, path);
    }
}

impl Default for SubscriptionTrie {
    fn default() -> (r: Self)
        ensures
            r.wf(),
            r@ == Seq::<Entry>::empty(),
    {
        Self::new()
    }
}

/// What subscriptions in a list say is what each of them holds, one by one:
/// its connection, its `sid` and its queue group.
pub proof fn law_subscriptions_say_what_they_hold(subs: Seq<&Sub>, i: int)
    requires
        0 <= i < subs.len(),
    ensures
        said(subs).len() == subs.len(),
        said(subs)[i].conn_id == subs[i].conn_id@,
        said(subs)[i].sid == subs[i].sid@,
        said(subs)[i].queue_group is Some == subs[i].queue_group is Some,
        subs[i].queue_group matches Some(group) ==> said(subs)[i].queue_group == Some(group@),
{
}

} // verus!
