//! Which subscriptions a published subject reaches, as mathematics.

use crate::subject;
use crate::subscription::{self, SubView};
use vstd::prelude::*;

verus! {

/// A subscription and the pattern it was made under.
#[verifier::ext_equal]
pub struct Entry {
    pub pattern: Seq<Seq<u8>>,
    pub sub: SubView,
}

/// The subscriptions under one pattern, in order of arrival.
pub open spec fn under(log: Seq<Entry>, pattern: Seq<Seq<u8>>) -> Seq<SubView> {
    log.filter(|e: Entry| e.pattern == pattern).map_values(|e: Entry| e.sub)
}

/// `s` without the first of its items that `hit` holds of.
pub open spec fn less_first<T>(s: Seq<T>, hit: spec_fn(T) -> bool) -> Seq<T>
    decreases s.len(),
{
    if s.len() == 0 {
        s
    } else if hit(s[0]) {
        s.skip(1)
    } else {
        seq![s[0]] + less_first(s.skip(1), hit)
    }
}

/// `e` is the subscription `sid` of connection `conn` under `pattern`.
pub open spec fn is_entry(e: Entry, pattern: Seq<Seq<u8>>, conn: u32, sid: Seq<u8>) -> bool {
    e.pattern == pattern && subscription::is_sub(e.sub, conn, sid)
}

/// There is a subscription `sid` of connection `conn` under `pattern`.
pub open spec fn has_entry(log: Seq<Entry>, pattern: Seq<Seq<u8>>, conn: u32, sid: Seq<u8>) -> bool {
    exists|i: int| 0 <= i < log.len() && is_entry(#[trigger] log[i], pattern, conn, sid)
}

/// The subscriptions that stay when one `sid` of connection `conn` leaves
/// `pattern`: the oldest such subscription goes.
pub open spec fn without(
    log: Seq<Entry>,
    pattern: Seq<Seq<u8>>,
    conn: u32,
    sid: Seq<u8>,
) -> Seq<Entry> {
    less_first(log, |e: Entry| is_entry(e, pattern, conn, sid))
}

/// The subscriptions that stay when connection `conn` leaves.
pub open spec fn without_connection(log: Seq<Entry>, conn: u32) -> Seq<Entry> {
    log.filter(|e: Entry| e.sub.conn_id != conn)
}

/// Each pattern with one token put in front.
pub open spec fn prefixed(token: Seq<u8>, patterns: Seq<Seq<Seq<u8>>>) -> Seq<Seq<Seq<u8>>> {
    patterns.map_values(|p: Seq<Seq<u8>>| seq![token] + p)
}

/// The patterns that match a subject, in the order in which they are served:
/// `>` first, then those that go on with the literal token, then those that go
/// on with `*`.
pub open spec fn candidates(subject: Seq<Seq<u8>>) -> Seq<Seq<Seq<u8>>>
    decreases subject.len(),
{
    if subject.len() == 0 {
        seq![Seq::empty()]
    } else {
        let further = candidates(subject.skip(1));
        seq![seq![subject::greater()]] + prefixed(subject[0], further) + prefixed(
            subject::star(),
            further,
        )
    }
}

/// What `stored` gives for each pattern, one behind the other.
pub open spec fn gathered(
    stored: spec_fn(Seq<Seq<u8>>) -> Seq<SubView>,
    patterns: Seq<Seq<Seq<u8>>>,
) -> Seq<SubView>
    decreases patterns.len(),
{
    if patterns.len() == 0 {
        Seq::empty()
    } else {
        stored(patterns[0]) + gathered(stored, patterns.skip(1))
    }
}

/// The subscriptions that a subject reaches, in the order in which they are
/// served.
pub open spec fn matched(log: Seq<Entry>, subject: Seq<Seq<u8>>) -> Seq<SubView> {
    gathered(|p: Seq<Seq<u8>>| under(log, p), candidates(subject))
}

/// A subject without wildcards.
pub open spec fn is_literal(subject: Seq<Seq<u8>>) -> bool {
    forall|i: int| 0 <= i < subject.len() ==> !subject::is_wildcard(#[trigger] subject[i])
}

/// One more subscription stands behind the others of its pattern.
pub proof fn lemma_under_push(log: Seq<Entry>, e: Entry, pattern: Seq<Seq<u8>>)
    ensures
        under(log.push(e), pattern) == (if e.pattern == pattern {
            under(log, pattern).push(e.sub)
        } else {
            under(log, pattern)
        }),
{
    let keep = |x: Entry| x.pattern == pattern;
    reveal(Seq::filter);
    assert(log.push(e).drop_last() =~= log);
    assert(log.push(e).filter(keep) == (if keep(e) {
        log.filter(keep).push(e)
    } else {
        log.filter(keep)
    }));
    if e.pattern == pattern {
        assert(under(log.push(e), pattern) =~= under(log, pattern).push(e.sub));
    }
}

/// Taking out the first hit: where there is none, nothing changes; where the
/// first stands at `i`, the item at `i` is removed.
pub proof fn lemma_less_first<T>(s: Seq<T>, hit: spec_fn(T) -> bool, i: int)
    requires
        0 <= i <= s.len(),
        forall|j: int| 0 <= j < i ==> !hit(#[trigger] s[j]),
        i < s.len() ==> hit(s[i]),
    ensures
        less_first(s, hit) == (if i < s.len() {
            s.remove(i)
        } else {
            s
        }),
    decreases s.len(),
{
    if s.len() > 0 {
        let rest = s.skip(1);
        if i == 0 {
            assert(s.remove(0) =~= rest);
        } else {
            assert(!hit(s[0]));
            assert forall|j: int| 0 <= j < i - 1 implies !hit(#[trigger] rest[j]) by {
                assert(rest[j] == s[j + 1]);
            }
            lemma_less_first(rest, hit, i - 1);
            if i < s.len() {
                assert(seq![s[0]] + rest.remove(i - 1) =~= s.remove(i));
            } else {
                assert(seq![s[0]] + rest =~= s);
            }
        }
    }
}

/// Where there is a hit, there is a first one.
pub proof fn lemma_first_hit<T>(s: Seq<T>, hit: spec_fn(T) -> bool, k: int) -> (i: int)
    requires
        0 <= k < s.len(),
        hit(s[k]),
    ensures
        0 <= i <= k,
        hit(s[i]),
        forall|j: int| 0 <= j < i ==> !hit(#[trigger] s[j]),
    decreases k,
{
    if exists|j: int| 0 <= j < k && hit(#[trigger] s[j]) {
        let j = choose|j: int| 0 <= j < k && hit(#[trigger] s[j]);
        lemma_first_hit(s, hit, j)
    } else {
        k
    }
}

/// One subscription in front stands in front of the others of its pattern.
proof fn lemma_under_front(e: Entry, rest: Seq<Entry>, pattern: Seq<Seq<u8>>)
    ensures
        under(seq![e] + rest, pattern) == (if e.pattern == pattern {
            seq![e.sub] + under(rest, pattern)
        } else {
            under(rest, pattern)
        }),
{
    let keep = |x: Entry| x.pattern == pattern;
    Seq::filter_distributes_over_add(seq![e], rest, keep);
    reveal_with_fuel(Seq::filter, 2);
    assert(seq![e].drop_last() =~= Seq::<Entry>::empty());
    assert(seq![e].filter(keep) =~= (if keep(e) {
        seq![e]
    } else {
        Seq::empty()
    }));
    assert(under(seq![e] + rest, pattern) =~= (if e.pattern == pattern {
        seq![e.sub] + under(rest, pattern)
    } else {
        under(rest, pattern)
    }));
}

/// Taking a subscription out of a pattern takes it out of that pattern's list
/// and leaves every other list as it is.
pub proof fn lemma_under_without(
    log: Seq<Entry>,
    pattern: Seq<Seq<u8>>,
    conn: u32,
    sid: Seq<u8>,
)
    ensures
        has_entry(log, pattern, conn, sid) == subscription::lists(
            under(log, pattern),
            conn,
            sid,
        ),
        without(log, pattern, conn, sid).len() == log.len() - (if has_entry(
            log,
            pattern,
            conn,
            sid,
        ) {
            1int
        } else {
            0
        }),
        forall|p: Seq<Seq<u8>>| #[trigger]
            under(without(log, pattern, conn, sid), p) == (if p == pattern {
                subscription::less(under(log, p), conn, sid)
            } else {
                under(log, p)
            }),
    decreases log.len(),
{
    if log.len() == 0 {
        assert forall|p: Seq<Seq<u8>>| #[trigger] under(log, p).len() == 0 by {
            lemma_under_len(log, p);
        }
    } else {
        let e = log[0];
        let rest = log.skip(1);
        lemma_under_without(rest, pattern, conn, sid);
        assert(log =~= seq![e] + rest);
        let all = under(log, pattern);
        let all_rest = under(rest, pattern);
        lemma_under_front(e, rest, pattern);
        if has_entry(rest, pattern, conn, sid) {
            let i = choose|i: int| 0 <= i < rest.len() && is_entry(#[trigger] rest[i], pattern, conn, sid);
            assert(is_entry(log[i + 1], pattern, conn, sid));
            let k = choose|k: int|
                0 <= k < all_rest.len() && subscription::is_sub(#[trigger] all_rest[k], conn, sid);
            if e.pattern == pattern {
                assert(all[k + 1] == all_rest[k]);
            }
            assert(subscription::lists(all, conn, sid));
        } else if is_entry(e, pattern, conn, sid) {
            assert(is_entry(log[0], pattern, conn, sid));
            assert(all[0] == e.sub);
            assert(subscription::lists(all, conn, sid));
        } else {
            if has_entry(log, pattern, conn, sid) {
                let i = choose|i: int|
                    0 <= i < log.len() && is_entry(#[trigger] log[i], pattern, conn, sid);
                assert(is_entry(rest[i - 1], pattern, conn, sid));
            }
            if subscription::lists(all, conn, sid) {
                let k = choose|k: int|
                    0 <= k < all.len() && subscription::is_sub(#[trigger] all[k], conn, sid);
                if e.pattern == pattern {
                    assert(all_rest[k - 1] == all[k]);
                    assert(subscription::lists(all_rest, conn, sid));
                }
            }
        }
        assert forall|p: Seq<Seq<u8>>| #[trigger]
            under(without(log, pattern, conn, sid), p) == (if p == pattern {
                subscription::less(under(log, p), conn, sid)
            } else {
                under(log, p)
            }) by {
            lemma_under_front(e, rest, p);
            if is_entry(e, pattern, conn, sid) {
                assert(without(log, pattern, conn, sid) == rest);
                if p == pattern {
                    assert(under(log, p).skip(1) =~= under(rest, p));
                }
            } else {
                let left = without(rest, pattern, conn, sid);
                assert(without(log, pattern, conn, sid) == seq![e] + left);
                lemma_under_front(e, left, p);
                if e.pattern == p {
                    assert(under(log, p).skip(1) =~= under(rest, p));
                }
            }
        }
    }
}

/// A connection that leaves takes its subscriptions out of every pattern's
/// list.
pub proof fn lemma_under_without_connection(log: Seq<Entry>, conn: u32, pattern: Seq<Seq<u8>>)
    ensures
        under(without_connection(log, conn), pattern) == subscription::not_of(
            under(log, pattern),
            conn,
        ),
    decreases log.len(),
{
    reveal(Seq::filter);
    if log.len() == 0 {
        assert(under(without_connection(log, conn), pattern) =~= subscription::not_of(
            under(log, pattern),
            conn,
        ));
    } else {
        let init = log.drop_last();
        let e = log.last();
        lemma_under_without_connection(init, conn, pattern);
        assert(log =~= init.push(e));
        lemma_under_push(init, e, pattern);
        lemma_under_push(without_connection(init, conn), e, pattern);
        if e.pattern == pattern {
            assert(under(init, pattern).push(e.sub).drop_last() =~= under(init, pattern));
        }
    }
}

/// A subscription is listed under its pattern.
pub proof fn lemma_listed(log: Seq<Entry>, i: int)
    requires
        0 <= i < log.len(),
    ensures
        under(log, log[i].pattern).contains(log[i].sub),
{
    let keep = |x: Entry| x.pattern == log[i].pattern;
    log.lemma_filter_contains(keep, i);
    let kept = log.filter(keep);
    let k = choose|k: int| 0 <= k < kept.len() && kept[k] == log[i];
    assert(under(log, log[i].pattern)[k] == log[i].sub);
}

/// How many subscriptions of connection `conn` stand under the patterns that
/// `of` holds of.
pub open spec fn count_of(log: Seq<Entry>, conn: u32, of: spec_fn(Seq<Seq<u8>>) -> bool) -> nat {
    log.filter(|e: Entry| e.sub.conn_id == conn && of(e.pattern)).len()
}

/// Counting under two kinds of patterns that exclude each other adds up.
pub proof fn lemma_count_adds(
    log: Seq<Entry>,
    conn: u32,
    a: spec_fn(Seq<Seq<u8>>) -> bool,
    b: spec_fn(Seq<Seq<u8>>) -> bool,
    c: spec_fn(Seq<Seq<u8>>) -> bool,
)
    requires
        forall|i: int|
            0 <= i < log.len() ==> {
                let p = (#[trigger] log[i]).pattern;
                !(a(p) && b(p)) && c(p) == (a(p) || b(p))
            },
    ensures
        count_of(log, conn, c) == count_of(log, conn, a) + count_of(log, conn, b),
        count_of(log, conn, c) <= log.len(),
    decreases log.len(),
{
    reveal(Seq::filter);
    if log.len() > 0 {
        let init = log.drop_last();
        assert forall|i: int| 0 <= i < init.len() implies {
            let p = (#[trigger] init[i]).pattern;
            !(a(p) && b(p)) && c(p) == (a(p) || b(p))
        } by {
            assert(init[i] == log[i]);
        }
        lemma_count_adds(init, conn, a, b, c);
        let p = log[log.len() - 1].pattern;
        assert(!(a(p) && b(p)) && c(p) == (a(p) || b(p)));
    }
}

/// Where no subscription has such a pattern, none is counted.
pub proof fn lemma_count_none(log: Seq<Entry>, conn: u32, of: spec_fn(Seq<Seq<u8>>) -> bool)
    requires
        forall|i: int| 0 <= i < log.len() ==> !of((#[trigger] log[i]).pattern),
    ensures
        count_of(log, conn, of) == 0,
    decreases log.len(),
{
    reveal(Seq::filter);
    if log.len() > 0 {
        let init = log.drop_last();
        assert forall|i: int| 0 <= i < init.len() implies !of((#[trigger] init[i]).pattern) by {
            assert(init[i] == log[i]);
        }
        lemma_count_none(init, conn, of);
        assert(!of(log[log.len() - 1].pattern));
    }
}

/// Counting under one pattern is counting in its list.
pub proof fn lemma_count_under(log: Seq<Entry>, conn: u32, pattern: Seq<Seq<u8>>)
    ensures
        count_of(log, conn, |p: Seq<Seq<u8>>| p == pattern) == under(log, pattern).len()
            - subscription::not_of(under(log, pattern), conn).len(),
    decreases log.len(),
{
    reveal(Seq::filter);
    if log.len() > 0 {
        let init = log.drop_last();
        let e = log.last();
        lemma_count_under(init, conn, pattern);
        assert(log =~= init.push(e));
        lemma_under_push(init, e, pattern);
        if e.pattern == pattern {
            assert(under(init, pattern).push(e.sub).drop_last() =~= under(init, pattern));
        }
    } else {
        assert(under(log, pattern).len() == 0);
    }
}

/// What stays when a connection leaves is all but its subscriptions.
pub proof fn lemma_without_connection_len(log: Seq<Entry>, conn: u32)
    ensures
        without_connection(log, conn).len() == log.len() - count_of(
            log,
            conn,
            |p: Seq<Seq<u8>>| true,
        ),
    decreases log.len(),
{
    reveal(Seq::filter);
    if log.len() > 0 {
        lemma_without_connection_len(log.drop_last(), conn);
    }
}

/// A pattern has no more subscriptions than there are.
pub proof fn lemma_under_len(log: Seq<Entry>, pattern: Seq<Seq<u8>>)
    ensures
        under(log, pattern).len() <= log.len(),
{
    log.lemma_filter_len(|e: Entry| e.pattern == pattern);
}

/// Where something is listed under a pattern there is an entry for it.
pub proof fn lemma_entry_under(log: Seq<Entry>, pattern: Seq<Seq<u8>>) -> (i: int)
    requires
        under(log, pattern).len() > 0,
    ensures
        0 <= i < log.len(),
        log[i].pattern == pattern,
    decreases log.len(),
{
    reveal(Seq::filter);
    if log.last().pattern == pattern {
        log.len() - 1
    } else {
        let init = log.drop_last();
        assert(under(log, pattern) =~= under(init, pattern));
        lemma_entry_under(init, pattern)
    }
}

/// A subscription is among those under its pattern.
pub proof fn lemma_under_last(log: Seq<Entry>)
    requires
        log.len() > 0,
    ensures
        under(log, log.last().pattern).len() > 0,
{
    assert(log =~= log.drop_last().push(log.last()));
    lemma_under_push(log.drop_last(), log.last(), log.last().pattern);
}

pub proof fn lemma_gathered_add(
    stored: spec_fn(Seq<Seq<u8>>) -> Seq<SubView>,
    a: Seq<Seq<Seq<u8>>>,
    b: Seq<Seq<Seq<u8>>>,
)
    ensures
        gathered(stored, a + b) == gathered(stored, a) + gathered(stored, b),
    decreases a.len(),
{
    if a.len() == 0 {
        assert(a + b =~= b);
        assert(gathered(stored, a + b) =~= gathered(stored, a) + gathered(stored, b));
    } else {
        assert((a + b).skip(1) =~= a.skip(1) + b);
        lemma_gathered_add(stored, a.skip(1), b);
        assert(gathered(stored, a + b) =~= gathered(stored, a) + gathered(stored, b));
    }
}

/// Gathering under a token in front is gathering from what stands behind it.
pub proof fn lemma_gathered_prefixed(
    stored: spec_fn(Seq<Seq<u8>>) -> Seq<SubView>,
    behind: spec_fn(Seq<Seq<u8>>) -> Seq<SubView>,
    token: Seq<u8>,
    patterns: Seq<Seq<Seq<u8>>>,
)
    requires
        forall|p: Seq<Seq<u8>>| #[trigger] behind(p) == stored(seq![token] + p),
    ensures
        gathered(stored, prefixed(token, patterns)) == gathered(behind, patterns),
    decreases patterns.len(),
{
    if patterns.len() > 0 {
        assert(prefixed(token, patterns).skip(1) =~= prefixed(token, patterns.skip(1)));
        assert(behind(patterns[0]) == stored(seq![token] + patterns[0]));
        lemma_gathered_prefixed(stored, behind, token, patterns.skip(1));
    }
}

/// Gathering depends only on what is stored under the patterns.
pub proof fn lemma_gathered_same(
    f: spec_fn(Seq<Seq<u8>>) -> Seq<SubView>,
    g: spec_fn(Seq<Seq<u8>>) -> Seq<SubView>,
    patterns: Seq<Seq<Seq<u8>>>,
)
    requires
        forall|p: Seq<Seq<u8>>| #[trigger] f(p) == g(p),
    ensures
        gathered(f, patterns) == gathered(g, patterns),
    decreases patterns.len(),
{
    if patterns.len() > 0 {
        assert(f(patterns[0]) == g(patterns[0]));
        lemma_gathered_same(f, g, patterns.skip(1));
    }
}

/// Where nothing is stored, nothing is gathered.
pub proof fn lemma_gathered_none(
    f: spec_fn(Seq<Seq<u8>>) -> Seq<SubView>,
    patterns: Seq<Seq<Seq<u8>>>,
)
    requires
        forall|p: Seq<Seq<u8>>| (#[trigger] f(p)).len() == 0,
    ensures
        gathered(f, patterns).len() == 0,
    decreases patterns.len(),
{
    if patterns.len() > 0 {
        assert(f(patterns[0]).len() == 0);
        lemma_gathered_none(f, patterns.skip(1));
    }
}

/// A pattern other than `>` alone matches if its first token admits the first
/// token of the subject and the rest matches the rest.
proof fn lemma_matches_step(pattern: Seq<Seq<u8>>, subject: Seq<Seq<u8>>)
    requires
        pattern.len() > 0,
        subject.len() > 0,
        pattern != seq![subject::greater()],
    ensures
        subject::pattern_matches(pattern, subject) == (subject::token_admits(
            pattern[0],
            subject[0],
        ) && subject::pattern_matches(pattern.skip(1), subject.skip(1))),
{
    let p = pattern.skip(1);
    let s = subject.skip(1);
    if pattern.len() == 1 && pattern[0] == subject::greater() {
        assert(pattern =~= seq![subject::greater()]);
    }
    assert(forall|i: int| 0 <= i < p.len() ==> #[trigger] p[i] == pattern[i + 1]);
    assert(forall|i: int| 0 <= i < s.len() ==> #[trigger] s[i] == subject[i + 1]);
    if p.len() > 0 {
        assert(p.last() == pattern.last());
    }
    if subject::pattern_matches(pattern, subject) {
        assert(subject::token_admits(pattern[0], subject[0]));
        assert forall|i: int|
            0 <= i < p.len() && subject::token_admits(pattern[i + 1], subject[i + 1]) implies
            subject::token_admits(#[trigger] p[i], s[i]) by {}
    }
    if subject::token_admits(pattern[0], subject[0]) && subject::pattern_matches(p, s) {
        let n = if pattern.last() == subject::greater() {
            pattern.len() - 1
        } else {
            pattern.len() as int
        };
        assert forall|i: int| 0 <= i < n implies subject::token_admits(
            #[trigger] pattern[i],
            subject[i],
        ) by {
            if i > 0 {
                assert(p[i - 1] == pattern[i]);
                assert(s[i - 1] == subject[i]);
            }
        }
    }
}

/// The candidates of a subject are exactly the patterns that match it, each
/// of them once.
pub proof fn law_candidates_are_the_matching_patterns(subject: Seq<Seq<u8>>)
    requires
        is_literal(subject),
    ensures
        candidates(subject).no_duplicates(),
        forall|p: Seq<Seq<u8>>| #[trigger]
            candidates(subject).contains(p) == subject::pattern_matches(p, subject),
    decreases subject.len(),
{
    let all = candidates(subject);
    if subject.len() == 0 {
        assert forall|p: Seq<Seq<u8>>| #[trigger]
            all.contains(p) == subject::pattern_matches(p, subject) by {
            if p.len() == 0 {
                assert(p =~= all[0]);
            } else {
                assert(!subject::pattern_matches(p, subject));
            }
        }
    } else {
        let rest = subject.skip(1);
        assert forall|i: int| 0 <= i < rest.len() implies !subject::is_wildcard(
            #[trigger] rest[i],
        ) by {
            assert(rest[i] == subject[i + 1]);
        }
        law_candidates_are_the_matching_patterns(rest);
        let further = candidates(rest);
        let anchored = seq![seq![subject::greater()]];
        let literal = prefixed(subject[0], further);
        let star = prefixed(subject::star(), further);
        let n = further.len() as int;
        assert(all == anchored + literal + star);
        assert(!subject::is_wildcard(subject[0]));
        assert(subject::star() != subject::greater()) by {
            assert(subject::star()[0] != subject::greater()[0]);
        }
        assert forall|i: int| 0 < i < all.len() implies (#[trigger] all[i])[0] == (if i <= n {
            subject[0]
        } else {
            subject::star()
        }) && all[i].skip(1) == further[if i <= n {
            i - 1
        } else {
            i - 1 - n
        }] && all[i].len() > 0 by {
            let k = if i <= n {
                i - 1
            } else {
                i - 1 - n
            };
            assert(all[i].skip(1) =~= further[k]);
        }
        assert forall|p: Seq<Seq<u8>>| #[trigger]
            all.contains(p) == subject::pattern_matches(p, subject) by {
            if p == anchored[0] {
                assert(all[0] == p);
                assert(p.last() == subject::greater());
            } else if p.len() == 0 {
                assert(!subject::pattern_matches(p, subject));
                assert(!all.contains(p));
            } else {
                lemma_matches_step(p, subject);
                if all.contains(p) {
                    let i = choose|i: int| 0 <= i < all.len() && all[i] == p;
                    assert(i > 0);
                    assert(further.contains(p.skip(1)));
                }
                if subject::pattern_matches(p, subject) {
                    assert(further.contains(p.skip(1)));
                    let k = choose|k: int| 0 <= k < n && further[k] == p.skip(1);
                    let i = if p[0] == subject[0] {
                        k + 1
                    } else {
                        k + 1 + n
                    };
                    assert(all[i] =~= p) by {
                        assert(all[i] =~= seq![p[0]] + further[k]);
                        assert(p =~= seq![p[0]] + p.skip(1));
                    }
                }
            }
        }
        assert forall|i: int, j: int| 0 <= i < j < all.len() implies all[i] != all[j] by {
            if i == 0 {
                assert(all[0][0] == subject::greater());
                assert(all[j][0] != subject::greater());
            } else if i <= n && j > n {
                assert(all[i][0] != all[j][0]);
            } else {
                assert(all[i].skip(1) != all[j].skip(1));
            }
        }
    }
}

/// One more subscription adds itself to what is gathered if its pattern is
/// among the patterns, and changes nothing else.
proof fn lemma_gathered_push(log: Seq<Entry>, e: Entry, patterns: Seq<Seq<Seq<u8>>>)
    requires
        patterns.no_duplicates(),
    ensures
        gathered(|p: Seq<Seq<u8>>| under(log.push(e), p), patterns).to_multiset() == (
        if patterns.contains(e.pattern) {
            gathered(|p: Seq<Seq<u8>>| under(log, p), patterns).to_multiset().insert(e.sub)
        } else {
            gathered(|p: Seq<Seq<u8>>| under(log, p), patterns).to_multiset()
        }),
    decreases patterns.len(),
{
    let f = |p: Seq<Seq<u8>>| under(log.push(e), p);
    let g = |p: Seq<Seq<u8>>| under(log, p);
    if patterns.len() > 0 {
        let first = patterns[0];
        let rest = patterns.skip(1);
        assert(rest.no_duplicates());
        lemma_gathered_push(log, e, rest);
        lemma_under_push(log, e, first);
        vstd::seq_lib::lemma_multiset_commutative(f(first), gathered(f, rest));
        vstd::seq_lib::lemma_multiset_commutative(g(first), gathered(g, rest));
        vstd::seq_lib::to_multiset_build(g(first), e.sub);
        if e.pattern == first {
            assert(patterns.contains(first));
            assert(!rest.contains(first)) by {
                if rest.contains(first) {
                    let i = choose|i: int| 0 <= i < rest.len() && rest[i] == first;
                    assert(patterns[i + 1] == patterns[0]);
                }
            }
        } else if patterns.contains(e.pattern) {
            let i = choose|i: int| 0 <= i < patterns.len() && patterns[i] == e.pattern;
            assert(rest[i - 1] == e.pattern);
        } else if rest.contains(e.pattern) {
            let i = choose|i: int| 0 <= i < rest.len() && rest[i] == e.pattern;
            assert(patterns[i + 1] == e.pattern);
        }
        assert(gathered(f, patterns).to_multiset() =~= (if patterns.contains(e.pattern) {
            gathered(g, patterns).to_multiset().insert(e.sub)
        } else {
            gathered(g, patterns).to_multiset()
        }));
    }
}

/// The subscriptions whose pattern matches a subject.
pub open spec fn matching(log: Seq<Entry>, subject: Seq<Seq<u8>>) -> Seq<SubView> {
    log.filter(|e: Entry| subject::pattern_matches(e.pattern, subject)).map_values(
        |e: Entry| e.sub,
    )
}

/// A published subject reaches exactly the subscriptions whose pattern matches
/// it, each of them once.
pub proof fn law_match_is_exact(log: Seq<Entry>, subject: Seq<Seq<u8>>)
    requires
        is_literal(subject),
    ensures
        matched(log, subject).to_multiset() == matching(log, subject).to_multiset(),
    decreases log.len(),
{
    let all = candidates(subject);
    law_candidates_are_the_matching_patterns(subject);
    let keep = |e: Entry| subject::pattern_matches(e.pattern, subject);
    reveal(Seq::filter);
    if log.len() == 0 {
        let f = |p: Seq<Seq<u8>>| under(log, p);
        assert forall|p: Seq<Seq<u8>>| (#[trigger] f(p)).len() == 0 by {
            lemma_under_len(log, p);
        }
        lemma_gathered_none(f, all);
        assert(matched(log, subject) =~= matching(log, subject));
    } else {
        let init = log.drop_last();
        let e = log.last();
        assert(log =~= init.push(e));
        law_match_is_exact(init, subject);
        lemma_gathered_push(init, e, all);
        assert(all.contains(e.pattern) == subject::pattern_matches(e.pattern, subject));
        if keep(e) {
            assert(matching(log, subject) =~= matching(init, subject).push(e.sub));
            vstd::seq_lib::to_multiset_build(matching(init, subject), e.sub);
        } else {
            assert(matching(log, subject) =~= matching(init, subject));
        }
    }
}

/// A subject reaches no more subscriptions than there are.
pub proof fn lemma_matched_len(log: Seq<Entry>, subject: Seq<Seq<u8>>)
    requires
        is_literal(subject),
    ensures
        matched(log, subject).len() <= log.len(),
{
    broadcast use vstd::seq_lib::group_to_multiset_ensures;

    law_match_is_exact(log, subject);
    log.lemma_filter_len(|e: Entry| subject::pattern_matches(e.pattern, subject));
    assert(matched(log, subject).len() == matched(log, subject).to_multiset().len());
    assert(matching(log, subject).len() == matching(log, subject).to_multiset().len());
}

/// A new subscription is reached by the subjects that its pattern matches, and
/// changes nothing for the others.
pub proof fn law_subscribed_is_reached(log: Seq<Entry>, e: Entry, subject: Seq<Seq<u8>>)
    requires
        is_literal(subject),
    ensures
        matched(log.push(e), subject).to_multiset() == (if subject::pattern_matches(
            e.pattern,
            subject,
        ) {
            matched(log, subject).to_multiset().insert(e.sub)
        } else {
            matched(log, subject).to_multiset()
        }),
{
    law_candidates_are_the_matching_patterns(subject);
    lemma_gathered_push(log, e, candidates(subject));
    assert(candidates(subject).contains(e.pattern) == subject::pattern_matches(e.pattern, subject));
}

/// Unsubscribing takes back a subscription: where the connection had no such
/// subscription under the pattern before, everything is as it was.
pub proof fn law_unsubscribe_undoes_subscribe(log: Seq<Entry>, e: Entry)
    requires
        !has_entry(log, e.pattern, e.sub.conn_id, e.sub.sid),
    ensures
        has_entry(log.push(e), e.pattern, e.sub.conn_id, e.sub.sid),
        without(log.push(e), e.pattern, e.sub.conn_id, e.sub.sid) == log,
{
    let hit = |x: Entry| is_entry(x, e.pattern, e.sub.conn_id, e.sub.sid);
    let more = log.push(e);
    let n = log.len() as int;
    assert(hit(more[n]));
    assert(is_entry(more[n], e.pattern, e.sub.conn_id, e.sub.sid));
    assert forall|j: int| 0 <= j < n implies !hit(#[trigger] more[j]) by {
        assert(more[j] == log[j]);
        assert(!is_entry(log[j], e.pattern, e.sub.conn_id, e.sub.sid));
    }
    lemma_less_first(more, hit, n);
    assert(more.remove(n) =~= log);
}

/// No connection has two subscriptions with one `sid` under one pattern.
pub open spec fn no_copies(log: Seq<Entry>) -> bool {
    forall|i: int, j: int|
        0 <= i < j < log.len() ==> !is_entry(
            #[trigger] log[i],
            (#[trigger] log[j]).pattern,
            log[j].sub.conn_id,
            log[j].sub.sid,
        )
}

/// Unsubscribing takes exactly one subscription away, the oldest of that
/// connection with that `sid` under that very pattern, and only where there is
/// one. Every other one stays, in its order.
pub proof fn law_unsubscribe_removes_one(
    log: Seq<Entry>,
    pattern: Seq<Seq<u8>>,
    conn: u32,
    sid: Seq<u8>,
)
    ensures
        has_entry(log, pattern, conn, sid) ==> exists|i: int|
            0 <= i < log.len() && is_entry(#[trigger] log[i], pattern, conn, sid) && without(
                log,
                pattern,
                conn,
                sid,
            ) == log.remove(i),
        !has_entry(log, pattern, conn, sid) ==> without(log, pattern, conn, sid) == log,
{
    let hit = |e: Entry| is_entry(e, pattern, conn, sid);
    if has_entry(log, pattern, conn, sid) {
        let k = choose|k: int| 0 <= k < log.len() && is_entry(#[trigger] log[k], pattern, conn, sid);
        let i = lemma_first_hit(log, hit, k);
        lemma_less_first(log, hit, i);
        assert(is_entry(log[i], pattern, conn, sid));
    } else {
        lemma_less_first(log, hit, log.len() as int);
    }
}

/// Where there are no copies, an unsubscribe leaves no subscription of that
/// connection with that `sid` under that pattern; there are no copies
/// afterwards either.
pub proof fn law_unsubscribed_is_gone(
    log: Seq<Entry>,
    pattern: Seq<Seq<u8>>,
    conn: u32,
    sid: Seq<u8>,
)
    requires
        no_copies(log),
    ensures
        !has_entry(without(log, pattern, conn, sid), pattern, conn, sid),
        no_copies(without(log, pattern, conn, sid)),
        without(log, pattern, conn, sid).len() == log.len() - (if has_entry(
            log,
            pattern,
            conn,
            sid,
        ) {
            1int
        } else {
            0
        }),
{
    law_unsubscribe_removes_one(log, pattern, conn, sid);
    let left = without(log, pattern, conn, sid);
    if has_entry(log, pattern, conn, sid) {
        let i = choose|i: int|
            0 <= i < log.len() && is_entry(#[trigger] log[i], pattern, conn, sid) && left
                == log.remove(i);
        let from = |j: int|
            if j < i {
                j
            } else {
                j + 1
            };
        assert forall|j: int| 0 <= j < left.len() implies #[trigger] left[j] == log[from(j)]
            && !is_entry(left[j], pattern, conn, sid) by {
            if j < i {
                assert(!is_entry(log[j], log[i].pattern, log[i].sub.conn_id, log[i].sub.sid));
            } else {
                assert(!is_entry(
                    log[i],
                    log[j + 1].pattern,
                    log[j + 1].sub.conn_id,
                    log[j + 1].sub.sid,
                ));
            }
        }
        assert forall|a: int, b: int| 0 <= a < b < left.len() implies !is_entry(
            #[trigger] left[a],
            (#[trigger] left[b]).pattern,
            left[b].sub.conn_id,
            left[b].sub.sid,
        ) by {
            assert(left[a] == log[from(a)]);
            assert(left[b] == log[from(b)]);
        }
    }
}

/// An unsubscribe changes what a subject reaches by that one subscription, if
/// its pattern matches, and by nothing else.
pub proof fn law_unsubscribed_is_not_reached(
    log: Seq<Entry>,
    pattern: Seq<Seq<u8>>,
    conn: u32,
    sid: Seq<u8>,
    subject: Seq<Seq<u8>>,
)
    requires
        is_literal(subject),
        has_entry(log, pattern, conn, sid),
    ensures
        exists|s: SubView| #[trigger]
            subscription::is_sub(s, conn, sid) && matched(log, subject).to_multiset() == (
            if subject::pattern_matches(pattern, subject) {
                matched(without(log, pattern, conn, sid), subject).to_multiset().insert(s)
            } else {
                matched(without(log, pattern, conn, sid), subject).to_multiset()
            }),
{
    law_unsubscribe_removes_one(log, pattern, conn, sid);
    let left = without(log, pattern, conn, sid);
    let i = choose|i: int|
        0 <= i < log.len() && is_entry(#[trigger] log[i], pattern, conn, sid) && left
            == log.remove(i);
    lemma_matching_removed(log, i, subject);
    law_match_is_exact(log, subject);
    law_match_is_exact(left, subject);
    assert(subscription::is_sub(log[i].sub, conn, sid));
}

/// One subscription less is one match less, if it matched.
proof fn lemma_matching_removed(log: Seq<Entry>, i: int, subject: Seq<Seq<u8>>)
    requires
        0 <= i < log.len(),
    ensures
        matching(log, subject).to_multiset() == (if subject::pattern_matches(
            log[i].pattern,
            subject,
        ) {
            matching(log.remove(i), subject).to_multiset().insert(log[i].sub)
        } else {
            matching(log.remove(i), subject).to_multiset()
        }),
    decreases log.len(),
{
    let keep = |e: Entry| subject::pattern_matches(e.pattern, subject);
    reveal(Seq::filter);
    let init = log.drop_last();
    let e = log.last();
    assert(matching(log, subject) =~= (if keep(e) {
        matching(init, subject).push(e.sub)
    } else {
        matching(init, subject)
    }));
    vstd::seq_lib::to_multiset_build(matching(init, subject), e.sub);
    if i == log.len() - 1 {
        assert(log.remove(i) =~= init);
    } else {
        lemma_matching_removed(init, i, subject);
        assert(log.remove(i).drop_last() =~= init.remove(i));
        assert(log.remove(i).last() == e);
        assert(matching(log.remove(i), subject) =~= (if keep(e) {
            matching(init.remove(i), subject).push(e.sub)
        } else {
            matching(init.remove(i), subject)
        }));
        vstd::seq_lib::to_multiset_build(matching(init.remove(i), subject), e.sub);
        assert(matching(log, subject).to_multiset() =~= (if subject::pattern_matches(
            log[i].pattern,
            subject,
        ) {
            matching(log.remove(i), subject).to_multiset().insert(log[i].sub)
        } else {
            matching(log.remove(i), subject).to_multiset()
        }));
    }
}

/// What unsubscribing does, entry by entry: the first entry with that pattern,
/// that connection and that `sid` goes, whatever its queue group, and it is
/// found if and only if there is one.
pub proof fn law_unsubscribe_is_exact(
    log: Seq<Entry>,
    pattern: Seq<Seq<u8>>,
    conn: u32,
    sid: Seq<u8>,
    i: int,
)
    requires
        0 <= i <= log.len(),
        forall|j: int|
            0 <= j < i ==> !((#[trigger] log[j]).pattern == pattern && log[j].sub.conn_id == conn
                && log[j].sub.sid == sid),
        i < log.len() ==> log[i].pattern == pattern && log[i].sub.conn_id == conn && log[i].sub.sid
            == sid,
    ensures
        has_entry(log, pattern, conn, sid) == (i < log.len()),
        without(log, pattern, conn, sid) == (if i < log.len() {
            log.remove(i)
        } else {
            log
        }),
{
    let hit = |e: Entry| is_entry(e, pattern, conn, sid);
    assert forall|j: int| 0 <= j < i implies !hit(#[trigger] log[j]) by {
        assert(!(log[j].pattern == pattern && log[j].sub.conn_id == conn && log[j].sub.sid == sid));
    }
    if i < log.len() {
        assert(is_entry(log[i], pattern, conn, sid));
        assert(hit(log[i]));
    } else if has_entry(log, pattern, conn, sid) {
        let j = choose|j: int| 0 <= j < log.len() && is_entry(#[trigger] log[j], pattern, conn, sid);
        assert(!hit(log[j]));
    }
    lemma_less_first(log, hit, i);
}

/// When a connection leaves, an entry stays if and only if it is another's, and
/// those that stay keep their order.
pub proof fn law_leaving_is_exact(log: Seq<Entry>, e: Entry, conn: u32)
    ensures
        without_connection(Seq::empty(), conn) == Seq::<Entry>::empty(),
        without_connection(log.push(e), conn) == (if e.sub.conn_id == conn {
            without_connection(log, conn)
        } else {
            without_connection(log, conn).push(e)
        }),
{
    reveal(Seq::filter);
    assert(log.push(e).drop_last() =~= log);
    assert(without_connection(Seq::empty(), conn) =~= Seq::<Entry>::empty());
}

} // verus!
