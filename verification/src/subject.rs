//! Subjects: dot-separated tokens, wildcards and validation.

use smallvec::SmallVec;
use vstd::prelude::*;

verus! {

/// The byte between two tokens.
pub const DOT: u8 = 46;

/// How many items a list that grows on the heap may hold: an allocation for
/// that many items, rounded up to a power of two, stays addressable as long as
/// an item takes less than two hundred and fifty-six bytes.
pub const MAX_ITEMS: usize = usize::MAX / 512;

/// Why a subject was rejected at validation.
#[derive(Clone, Copy, Debug, PartialEq, Eq, Structural)]
pub enum SubjectError {
    /// Subject was empty.
    Empty,
    /// A token was empty (leading, trailing, or doubled `.`).
    EmptyToken,
    /// `*` or `>` appeared in a publish subject (wildcards are
    /// subscriber-only).
    WildcardInPublish,
    /// `>` was not the last token of a subscriber subject.
    InvalidGreaterPosition,
}

/// The token that stands for any one token.
pub open spec fn star() -> Seq<u8> {
    seq![42u8]
}

/// The token that stands for one or more tokens at the end.
pub open spec fn greater() -> Seq<u8> {
    seq![62u8]
}

/// A token that is a wildcard as a whole.
pub open spec fn is_wildcard(token: Seq<u8>) -> bool {
    token == star() || token == greater()
}

/// How many bytes `s` has before its first dot.
pub open spec fn token_len(s: Seq<u8>) -> nat
    decreases s.len(),
{
    if s.len() > 0 && s[0] != DOT {
        1 + token_len(s.skip(1))
    } else {
        0
    }
}

/// The tokens of a subject: what stands between its dots.
pub open spec fn tokens(s: Seq<u8>) -> Seq<Seq<u8>>
    decreases s.len(),
{
    let n = token_len(s) as int;
    if n < s.len() {
        seq![s.take(n)] + tokens(s.skip(n + 1))
    } else {
        seq![s]
    }
}

/// The error that the first unacceptable token of a published subject gives.
pub open spec fn publish_fault(toks: Seq<Seq<u8>>) -> Option<SubjectError>
    decreases toks.len(),
{
    if toks.len() == 0 {
        None
    } else if toks[0].len() == 0 {
        Some(SubjectError::EmptyToken)
    } else if is_wildcard(toks[0]) {
        Some(SubjectError::WildcardInPublish)
    } else {
        publish_fault(toks.skip(1))
    }
}

/// The tokens of a subject that a message may be published to.
pub open spec fn published(s: Seq<u8>) -> Result<Seq<Seq<u8>>, SubjectError> {
    if s.len() == 0 {
        Err(SubjectError::Empty)
    } else {
        match publish_fault(tokens(s)) {
            Some(e) => Err(e),
            None => Ok(tokens(s)),
        }
    }
}

/// Some token is empty.
pub open spec fn has_empty_token(toks: Seq<Seq<u8>>) -> bool {
    exists|i: int| 0 <= i < toks.len() && (#[trigger] toks[i]).len() == 0
}

/// `>` stands before the last token.
pub open spec fn has_inner_greater(toks: Seq<Seq<u8>>) -> bool {
    exists|i: int| 0 <= i < toks.len() - 1 && #[trigger] toks[i] == greater()
}

/// The tokens of a subject that can be subscribed to.
pub open spec fn subscribed(s: Seq<u8>) -> Result<Seq<Seq<u8>>, SubjectError> {
    if s.len() == 0 {
        Err(SubjectError::Empty)
    } else if has_empty_token(tokens(s)) {
        Err(SubjectError::EmptyToken)
    } else if has_inner_greater(tokens(s)) {
        Err(SubjectError::InvalidGreaterPosition)
    } else {
        Ok(tokens(s))
    }
}

/// A pattern token admits a subject token.
pub open spec fn token_admits(pattern: Seq<u8>, token: Seq<u8>) -> bool {
    pattern == star() || pattern == token
}

/// A subscribed pattern matches a published subject.
///
/// `*` matches exactly one token. A final `>` matches one or more. Every other
/// token matches itself.
pub open spec fn pattern_matches(pattern: Seq<Seq<u8>>, subject: Seq<Seq<u8>>) -> bool {
    if pattern.len() > 0 && pattern.last() == greater() {
        &&& subject.len() >= pattern.len()
        &&& forall|i: int|
            0 <= i < pattern.len() - 1 ==> token_admits(#[trigger] pattern[i], subject[i])
    } else {
        &&& subject.len() == pattern.len()
        &&& forall|i: int| 0 <= i < pattern.len() ==> token_admits(#[trigger] pattern[i], subject[i])
    }
}

/// A short list of the tokens of one subject, inline up to eight of them.
#[verifier::external_body]
pub struct SubjectTokens<'a>(SmallVec<[&'a [u8]; 8]>);

/// The tokens that a list holds, in order.
pub uninterp spec fn held_tokens(list: SubjectTokens<'_>) -> Seq<&[u8]>;

impl View for SubjectTokens<'_> {
    type V = Seq<Seq<u8>>;

    open spec fn view(&self) -> Seq<Seq<u8>> {
        held_tokens(*self).map_values(|t: &[u8]| t@)
    }
}

impl<'a> SubjectTokens<'a> {
    /// An empty list, by `SmallVec::new`.
    #[verifier::external_body]
    fn new() -> (r: Self)
        ensures
            held_tokens(r) == Seq::<&[u8]>::empty(),
    {
        SubjectTokens(SmallVec::new())
    }

    /// Appends a token behind the others, by `SmallVec::push`. The list grows
    /// on the heap when its inline room is used up, which panics where the
    /// allocation would not be addressable; the bound keeps clear of that.
    #[verifier::external_body]
    fn push(&mut self, token: &'a [u8])
        requires
            held_tokens(*old(self)).len() < MAX_ITEMS,
        ensures
            held_tokens(*final(self)) == held_tokens(*old(self)).push(token),
    {
        self.0.push(token)
    }

    /// The tokens as one slice, by `SmallVec::as_slice`: the same items in the
    /// same order.
    #[verifier::external_body]
    pub(crate) fn as_slice(&self) -> (r: &[&'a [u8]])
        ensures
            r@ == held_tokens(*self),
    {
        self.0.as_slice()
    }
}

/// True for the token `*`.
pub fn is_star(token: &[u8]) -> (r: bool)
    ensures
        r == (token@ == star()),
{
    let r = token.len() == 1 && token[0] == 42;
    proof {
        if r {
            assert(token@ =~= star());
        }
    }
    r
}

/// True for the token `>`.
pub fn is_greater(token: &[u8]) -> (r: bool)
    ensures
        r == (token@ == greater()),
{
    let r = token.len() == 1 && token[0] == 62;
    proof {
        if r {
            assert(token@ =~= greater());
        }
    }
    r
}

/// A token is counted up to the first dot, or to the end.
proof fn lemma_token_len_is(s: Seq<u8>, n: int)
    requires
        0 <= n <= s.len(),
        forall|i: int| 0 <= i < n ==> #[trigger] s[i] != DOT,
        n < s.len() ==> s[n] == DOT,
    ensures
        token_len(s) == n,
    decreases n,
{
    if n > 0 {
        let t = s.skip(1);
        assert forall|i: int| 0 <= i < n - 1 implies #[trigger] t[i] != DOT by {
            assert(t[i] == s[i + 1]);
        }
        if n < s.len() {
            assert(t[n - 1] == s[n]);
        }
        assert(s[0] != DOT);
        lemma_token_len_is(t, n - 1);
    }
}

/// A subject has at least one token, and at most one more than it has bytes.
pub proof fn lemma_token_count(s: Seq<u8>)
    ensures
        1 <= tokens(s).len() <= s.len() + 1,
    decreases s.len(),
{
    let n = token_len(s) as int;
    if n < s.len() {
        lemma_token_count(s.skip(n + 1));
    }
}

/// The first token of `s`, and where the next one starts if there is one.
fn first_token(s: &[u8]) -> (r: (&[u8], Option<&[u8]>))
    ensures
        r.1 is None ==> tokens(s@) == seq![r.0@],
        r.1 is Some ==> tokens(s@) == seq![r.0@] + tokens(r.1->0@) && r.1->0@.len() < s@.len(),
{
    let mut i: usize = 0;
    while i < s.len() && s[i] != DOT
        invariant
            i <= s@.len(),
            forall|j: int| 0 <= j < i ==> #[trigger] s@[j] != DOT,
        decreases s@.len() - i,
    {
        i += 1;
    }
    proof {
        lemma_token_len_is(s@, i as int);
    }
    let token = &s[0..i];
    assert(token@ =~= s@.take(i as int));
    if i < s.len() {
        let rest = &s[i + 1..s.len()];
        assert(rest@ =~= s@.skip(i + 1));
        (token, Some(rest))
    } else {
        assert(s@.take(i as int) =~= s@);
        (token, None)
    }
}

/// Splits a subject at its dots, and refuses empty tokens and, where
/// `literal` is set, wildcards.
fn split_subject(s: &[u8], literal: bool) -> (r: Result<SubjectTokens<'_>, SubjectError>)
    requires
        tokens(s@).len() <= MAX_ITEMS,
    ensures
        literal ==> r is Ok == (publish_fault(tokens(s@)) is None),
        literal ==> (r matches Err(e) ==> publish_fault(tokens(s@)) == Some(e)),
        !literal ==> r is Ok == !has_empty_token(tokens(s@)),
        !literal ==> (r matches Err(e) ==> e == SubjectError::EmptyToken),
        r matches Ok(list) ==> list@ == tokens(s@),
{
    let mut list = SubjectTokens::new();
    let mut rest = s;
    let ghost all = tokens(s@);
    proof {
        lemma_token_count(s@);
        assert(list@ + tokens(rest@) =~= all);
    }
    loop
        invariant
            all == tokens(s@),
            all.len() <= MAX_ITEMS,
            all == list@ + tokens(rest@),
            literal ==> publish_fault(all) == publish_fault(tokens(rest@)),
            !literal ==> forall|i: int| 0 <= i < list@.len() ==> (#[trigger] list@[i]).len() > 0,
        decreases rest@.len(),
    {
        let (token, next) = first_token(rest);
        let ghost here = tokens(rest@);
        assert(here[0] == token@);
        assert(all[list@.len() as int] == token@);
        if token.len() == 0 {
            return Err(SubjectError::EmptyToken);
        }
        if literal && (is_star(token) || is_greater(token)) {
            return Err(SubjectError::WildcardInPublish);
        }
        let ghost before = list@;
        list.push(token);
        assert(list@ =~= before.push(token@));
        match next {
            Some(tail) => {
                assert(here.skip(1) =~= tokens(tail@));
                assert(all =~= list@ + tokens(tail@));
                rest = tail;
            },
            None => {
                assert(here.skip(1) =~= Seq::<Seq<u8>>::empty());
                assert(publish_fault(here.skip(1)) is None);
                assert(all =~= list@);
                return Ok(list);
            },
        }
    }
}

/// Splits and validates the subject of a subscription.
pub(crate) fn parse_subscriber_subject(s: &[u8]) -> (r: Result<SubjectTokens<'_>, SubjectError>)
    requires
        tokens(s@).len() <= MAX_ITEMS,
    ensures
        r is Ok == (subscribed(s@) is Ok),
        r matches Ok(list) ==> subscribed(s@) == Ok::<Seq<Seq<u8>>, SubjectError>(list@),
        r matches Err(e) ==> subscribed(s@) == Err::<Seq<Seq<u8>>, SubjectError>(e),
{
    if s.len() == 0 {
        return Err(SubjectError::Empty);
    }
    let list = split_subject(s, false)?;
    let toks = list.as_slice();
    proof {
        lemma_token_count(s@);
    }
    let last: usize = toks.len() - 1;
    let mut i: usize = 0;
    while i < last
        invariant
            i <= last,
            last == toks@.len() - 1,
            toks@ == held_tokens(list),
            list@ == tokens(s@),
            s@.len() > 0,
            !has_empty_token(tokens(s@)),
            forall|j: int| 0 <= j < i ==> #[trigger] list@[j] != greater(),
        decreases last - i,
    {
        assert(list@[i as int] == toks@[i as int]@);
        if is_greater(toks[i]) {
            return Err(SubjectError::InvalidGreaterPosition);
        }
        i += 1;
    }
    Ok(list)
}

/// Splits and validates the subject of a published message.
pub(crate) fn parse_publisher_subject(s: &[u8]) -> (r: Result<SubjectTokens<'_>, SubjectError>)
    requires
        tokens(s@).len() <= MAX_ITEMS,
    ensures
        r is Ok == (published(s@) is Ok),
        r matches Ok(list) ==> published(s@) == Ok::<Seq<Seq<u8>>, SubjectError>(list@),
        r matches Err(e) ==> published(s@) == Err::<Seq<Seq<u8>>, SubjectError>(e),
{
    if s.len() == 0 {
        return Err(SubjectError::Empty);
    }
    split_subject(s, true)
}

/// A published subject holds no wildcard and no empty token.
pub proof fn lemma_publish_fault(toks: Seq<Seq<u8>>)
    ensures
        publish_fault(toks) is None == (forall|i: int|
            0 <= i < toks.len() ==> (#[trigger] toks[i]).len() > 0 && !is_wildcard(toks[i])),
    decreases toks.len(),
{
    if toks.len() > 0 {
        let rest = toks.skip(1);
        lemma_publish_fault(rest);
        if publish_fault(toks) is None {
            assert forall|i: int| 0 <= i < toks.len() implies (#[trigger] toks[i]).len() > 0
                && !is_wildcard(toks[i]) by {
                if i > 0 {
                    assert(rest[i - 1] == toks[i]);
                }
            }
        } else {
            if toks[0].len() > 0 && !is_wildcard(toks[0]) {
                let i = choose|i: int|
                    0 <= i < rest.len() && !((#[trigger] rest[i]).len() > 0 && !is_wildcard(
                        rest[i],
                    ));
                assert(rest[i] == toks[i + 1]);
            }
        }
    }
}

/// A token is counted within the string, and the byte behind it is a dot.
proof fn lemma_token_len(s: Seq<u8>)
    ensures
        token_len(s) <= s.len(),
        token_len(s) < s.len() ==> s[token_len(s) as int] == DOT,
    decreases s.len(),
{
    if s.len() > 0 && s[0] != DOT {
        let t = s.skip(1);
        lemma_token_len(t);
        if token_len(s) < s.len() {
            assert(t[token_len(t) as int] == s[token_len(s) as int]);
        }
    }
}

/// Subjects with the same tokens are the same, byte for byte: a subscription
/// is found again under the very subject that it was made under, and under no
/// other.
pub proof fn law_tokens_tell_the_subject(a: Seq<u8>, b: Seq<u8>)
    requires
        tokens(a) == tokens(b),
    ensures
        a == b,
    decreases a.len(),
{
    let m = token_len(a) as int;
    let n = token_len(b) as int;
    lemma_token_len(a);
    lemma_token_len(b);
    if m < a.len() {
        lemma_token_count(a.skip(m + 1));
    }
    if n < b.len() {
        lemma_token_count(b.skip(n + 1));
    }
    assert(tokens(a)[0] == a.take(m)) by {
        assert(a.take(a.len() as int) =~= a);
    }
    assert(tokens(b)[0] == b.take(n)) by {
        assert(b.take(b.len() as int) =~= b);
    }
    assert((m < a.len()) == (tokens(a).len() > 1));
    assert((n < b.len()) == (tokens(b).len() > 1));
    if m < a.len() {
        assert(tokens(a).skip(1) =~= tokens(a.skip(m + 1)));
        assert(tokens(b).skip(1) =~= tokens(b.skip(n + 1)));
        law_tokens_tell_the_subject(a.skip(m + 1), b.skip(n + 1));
        assert(a =~= a.take(m) + seq![DOT] + a.skip(m + 1));
        assert(b =~= b.take(n) + seq![DOT] + b.skip(n + 1));
    } else {
        assert(a.take(m) =~= a);
        assert(b.take(n) =~= b);
    }
}

/// Tokens with a dot between each two.
pub open spec fn dotted(toks: Seq<Seq<u8>>) -> Seq<u8>
    decreases toks.len(),
{
    if toks.len() == 0 {
        Seq::empty()
    } else if toks.len() == 1 {
        toks[0]
    } else {
        toks[0] + (seq![46u8] + dotted(toks.skip(1)))
    }
}

/// No dot stands in `token`.
pub open spec fn is_undotted(token: Seq<u8>) -> bool {
    forall|i: int| 0 <= i < token.len() ==> #[trigger] token[i] != 46
}

proof fn lemma_undotted_head(s: Seq<u8>)
    ensures
        is_undotted(s.take(token_len(s) as int)),
    decreases s.len(),
{
    lemma_token_len(s);
    if s.len() > 0 && s[0] != DOT {
        let t = s.skip(1);
        lemma_undotted_head(t);
        lemma_token_len(t);
        let head = s.take(token_len(s) as int);
        assert forall|i: int| 0 <= i < head.len() implies #[trigger] head[i] != 46 by {
            if i > 0 {
                assert(t.take(token_len(t) as int)[i - 1] == head[i]);
            }
        }
    }
}

/// The tokens of a subject are what its dots separate: with the dots put back
/// they are the subject, and no dot stands in any of them.
pub proof fn law_dots_separate_tokens(s: Seq<u8>)
    ensures
        tokens(s).len() > 0,
        dotted(tokens(s)) == s,
        forall|i: int| 0 <= i < tokens(s).len() ==> is_undotted(#[trigger] tokens(s)[i]),
    decreases s.len(),
{
    let n = token_len(s) as int;
    lemma_token_len(s);
    lemma_undotted_head(s);
    if n < s.len() {
        let rest = s.skip(n + 1);
        law_dots_separate_tokens(rest);
        assert(tokens(s).skip(1) =~= tokens(rest));
        assert(s =~= s.take(n) + (seq![46u8] + rest));
        assert forall|i: int| 0 <= i < tokens(s).len() implies is_undotted(
            #[trigger] tokens(s)[i],
        ) by {
            if i > 0 {
                assert(tokens(s)[i] == tokens(rest)[i - 1]);
            }
        }
    } else {
        assert(s.take(n) =~= s);
    }
}

/// Tokens that are joined with dots come apart again as they were.
pub proof fn law_joined_tokens_come_apart(toks: Seq<Seq<u8>>)
    requires
        toks.len() > 0,
        forall|i: int| 0 <= i < toks.len() ==> is_undotted(#[trigger] toks[i]),
    ensures
        tokens(dotted(toks)) == toks,
    decreases toks.len(),
{
    let s = dotted(toks);
    let n = toks[0].len() as int;
    assert(is_undotted(toks[0]));
    if toks.len() == 1 {
        lemma_token_len_is(s, n);
        assert(tokens(s) =~= toks);
    } else {
        let rest = toks.skip(1);
        assert forall|i: int| 0 <= i < rest.len() implies is_undotted(#[trigger] rest[i]) by {
            assert(rest[i] == toks[i + 1]);
        }
        law_joined_tokens_come_apart(rest);
        assert forall|i: int| 0 <= i < n implies #[trigger] s[i] != DOT by {
            assert(s[i] == toks[0][i]);
        }
        lemma_token_len_is(s, n);
        assert(s.take(n) =~= toks[0]);
        assert(s.skip(n + 1) =~= dotted(rest));
        assert(tokens(s) =~= toks);
    }
}

/// A token that a published subject may have: not empty, not `*`, not `>`.
pub open spec fn is_publishable(token: Seq<u8>) -> bool {
    token.len() > 0 && token != seq![42u8] && token != seq![62u8]
}

/// Which subjects can be published to: those with at least one byte whose
/// tokens are all publishable. For the others it is the first token that is
/// not which tells the error.
pub proof fn law_what_can_be_published_to(s: Seq<u8>)
    ensures
        match published(s) {
            Ok(toks) => {
                &&& s.len() > 0
                &&& toks == tokens(s)
                &&& forall|i: int| 0 <= i < toks.len() ==> is_publishable(#[trigger] toks[i])
            },
            Err(SubjectError::Empty) => s.len() == 0,
            Err(SubjectError::EmptyToken) => s.len() > 0 && exists|k: int|
                0 <= k < tokens(s).len() && (#[trigger] tokens(s)[k]).len() == 0 && forall|i: int|
                    0 <= i < k ==> is_publishable(#[trigger] tokens(s)[i]),
            Err(SubjectError::WildcardInPublish) => s.len() > 0 && exists|k: int|
                0 <= k < tokens(s).len() && (#[trigger] tokens(s)[k] == seq![42u8] || tokens(s)[k]
                    == seq![62u8]) && forall|i: int|
                    0 <= i < k ==> is_publishable(#[trigger] tokens(s)[i]),
            Err(SubjectError::InvalidGreaterPosition) => false,
        },
{
    if s.len() > 0 {
        lemma_first_fault(tokens(s));
    }
}

proof fn lemma_first_fault(toks: Seq<Seq<u8>>)
    ensures
        match publish_fault(toks) {
            None => forall|i: int| 0 <= i < toks.len() ==> is_publishable(#[trigger] toks[i]),
            Some(SubjectError::EmptyToken) => exists|k: int|
                0 <= k < toks.len() && (#[trigger] toks[k]).len() == 0 && forall|i: int|
                    0 <= i < k ==> is_publishable(#[trigger] toks[i]),
            Some(SubjectError::WildcardInPublish) => exists|k: int|
                0 <= k < toks.len() && (#[trigger] toks[k] == seq![42u8] || toks[k] == seq![62u8])
                    && forall|i: int| 0 <= i < k ==> is_publishable(#[trigger] toks[i]),
            _ => false,
        },
    decreases toks.len(),
{
    if toks.len() > 0 {
        let rest = toks.skip(1);
        lemma_first_fault(rest);
        if is_publishable(toks[0]) {
            match publish_fault(rest) {
                None => {
                    assert forall|i: int| 0 <= i < toks.len() implies is_publishable(
                        #[trigger] toks[i],
                    ) by {
                        if i > 0 {
                            assert(rest[i - 1] == toks[i]);
                        }
                    }
                },
                Some(e) => {
                    let k = if e == SubjectError::EmptyToken {
                        choose|k: int|
                            0 <= k < rest.len() && (#[trigger] rest[k]).len() == 0 && forall|i: int|
                                0 <= i < k ==> is_publishable(#[trigger] rest[i])
                    } else {
                        choose|k: int|
                            0 <= k < rest.len() && (#[trigger] rest[k] == seq![42u8] || rest[k]
                                == seq![62u8]) && forall|i: int|
                                0 <= i < k ==> is_publishable(#[trigger] rest[i])
                    };
                    assert(rest[k] == toks[k + 1]);
                    assert forall|i: int| 0 <= i < k + 1 implies is_publishable(
                        #[trigger] toks[i],
                    ) by {
                        if i > 0 {
                            assert(rest[i - 1] == toks[i]);
                        }
                    }
                },
            }
        } else {
            assert(toks[0].len() == 0 || toks[0] == seq![42u8] || toks[0] == seq![62u8]);
        }
    }
}

/// Which subjects can be subscribed to: those with at least one byte, without
/// an empty token, and with `>` nowhere but at the end.
pub proof fn law_what_can_be_subscribed_to(s: Seq<u8>)
    ensures
        ({
            let toks = tokens(s);
            let gap = exists|i: int| 0 <= i < toks.len() && (#[trigger] toks[i]).len() == 0;
            let inner = exists|i: int| 0 <= i < toks.len() - 1 && #[trigger] toks[i] == seq![62u8];
            subscribed(s) == (if s.len() == 0 {
                Err::<Seq<Seq<u8>>, SubjectError>(SubjectError::Empty)
            } else if gap {
                Err::<Seq<Seq<u8>>, SubjectError>(SubjectError::EmptyToken)
            } else if inner {
                Err::<Seq<Seq<u8>>, SubjectError>(SubjectError::InvalidGreaterPosition)
            } else {
                Ok::<Seq<Seq<u8>>, SubjectError>(toks)
            })
        }),
{
    let toks = tokens(s);
    if has_empty_token(toks) {
        let i = choose|i: int| 0 <= i < toks.len() && (#[trigger] toks[i]).len() == 0;
        assert(toks[i].len() == 0);
    }
    if has_inner_greater(toks) {
        let i = choose|i: int| 0 <= i < toks.len() - 1 && #[trigger] toks[i] == greater();
        assert(toks[i] == seq![62u8]);
    }
    if exists|i: int| 0 <= i < toks.len() - 1 && #[trigger] toks[i] == seq![62u8] {
        let i = choose|i: int| 0 <= i < toks.len() - 1 && #[trigger] toks[i] == seq![62u8];
        assert(toks[i] == greater());
    }
}

/// What a pattern matches, token by token: a `>` at the end matches one or
/// more tokens; any other token matches exactly one, `*` whichever it is and a
/// literal token itself; and nothing may be left over on either side.
pub proof fn law_patterns_match_token_by_token(
    first: Seq<u8>,
    pattern: Seq<Seq<u8>>,
    subject: Seq<Seq<u8>>,
)
    ensures
        pattern_matches(Seq::empty(), subject) == (subject.len() == 0),
        pattern_matches(seq![seq![62u8]], subject) == (subject.len() >= 1),
        pattern.len() > 0 || first != seq![62u8] ==> pattern_matches(
            seq![first] + pattern,
            subject,
        ) == (subject.len() >= 1 && (first == seq![42u8] || first == subject[0])
            && pattern_matches(pattern, subject.skip(1))),
{
    let one = seq![seq![62u8]];
    assert(one.last() == greater());
    let whole = seq![first] + pattern;
    if pattern.len() > 0 || first != seq![62u8] {
        if pattern.len() > 0 {
            assert(whole.last() == pattern.last());
        } else {
            assert(whole.last() == first);
        }
        let rest = subject.skip(1);
        if pattern_matches(whole, subject) {
            assert(token_admits(whole[0], subject[0]));
            assert forall|i: int|
                0 <= i < pattern.len() - (if pattern.len() > 0 && pattern.last() == greater() {
                    1int
                } else {
                    0
                }) implies token_admits(#[trigger] pattern[i], rest[i]) by {
                assert(whole[i + 1] == pattern[i]);
                assert(rest[i] == subject[i + 1]);
                assert(token_admits(whole[i + 1], subject[i + 1]));
            }
        }
        if subject.len() >= 1 && (first == seq![42u8] || first == subject[0]) && pattern_matches(
            pattern,
            rest,
        ) {
            assert forall|i: int|
                0 <= i < whole.len() - (if whole.last() == greater() {
                    1int
                } else {
                    0
                }) implies token_admits(#[trigger] whole[i], subject[i]) by {
                if i > 0 {
                    assert(whole[i] == pattern[i - 1]);
                    assert(rest[i - 1] == subject[i]);
                    assert(token_admits(pattern[i - 1], rest[i - 1]));
                }
            }
        }
    }
}

} // verus!
