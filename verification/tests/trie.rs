use aulon::{ConnectionId, Sub, SubjectError, SubscriptionTrie};

fn sub(conn: u32, sid: &[u8]) -> Sub {
    Sub {
        conn_id: ConnectionId::new(conn),
        sid: sid.into(),
        queue_group: None,
    }
}

fn sub_qg(conn: u32, sid: &[u8], qg: &[u8]) -> Sub {
    Sub {
        conn_id: ConnectionId::new(conn),
        sid: sid.into(),
        queue_group: Some(qg.into()),
    }
}

fn collect(t: &SubscriptionTrie, subject: &[u8]) -> Vec<Sub> {
    let mut out = Vec::new();
    for s in t.for_each_match(subject).expect("valid publisher subject") {
        out.push(s.clone());
    }
    out
}

#[test]
fn empty_trie_matches_nothing() {
    let t = SubscriptionTrie::new();
    assert!(collect(&t, b"foo").is_empty());
    assert_eq!(t.total_subscriptions(), 0);
}

#[test]
fn exact_match_one_token() {
    let mut t = SubscriptionTrie::new();
    t.subscribe(b"foo", sub(1, b"7")).unwrap();
    let m = collect(&t, b"foo");
    assert_eq!(m.len(), 1);
    assert_eq!(m[0].conn_id, ConnectionId::new(1));
}

#[test]
fn exact_match_multi_token() {
    let mut t = SubscriptionTrie::new();
    t.subscribe(b"foo.bar.baz", sub(1, b"7")).unwrap();
    assert_eq!(collect(&t, b"foo.bar.baz").len(), 1);
    assert!(collect(&t, b"foo.bar").is_empty());
    assert!(collect(&t, b"foo.bar.baz.qux").is_empty());
}

#[test]
fn star_matches_one_token() {
    let mut t = SubscriptionTrie::new();
    t.subscribe(b"foo.*", sub(1, b"7")).unwrap();
    assert_eq!(collect(&t, b"foo.bar").len(), 1);
    assert_eq!(collect(&t, b"foo.baz").len(), 1);
    assert!(collect(&t, b"foo").is_empty());
    assert!(collect(&t, b"foo.bar.baz").is_empty());
}

#[test]
fn star_in_middle() {
    let mut t = SubscriptionTrie::new();
    t.subscribe(b"foo.*.baz", sub(1, b"7")).unwrap();
    assert_eq!(collect(&t, b"foo.bar.baz").len(), 1);
    assert_eq!(collect(&t, b"foo.qux.baz").len(), 1);
    assert!(collect(&t, b"foo.bar.qux").is_empty());
    assert!(collect(&t, b"foo.bar").is_empty());
}

#[test]
fn greater_matches_remainder() {
    let mut t = SubscriptionTrie::new();
    t.subscribe(b"foo.>", sub(1, b"7")).unwrap();
    assert_eq!(collect(&t, b"foo.bar").len(), 1);
    assert_eq!(collect(&t, b"foo.bar.baz").len(), 1);
    assert_eq!(collect(&t, b"foo.bar.baz.qux").len(), 1);
    // `foo.>` does NOT match `foo` alone.
    assert!(collect(&t, b"foo").is_empty());
}

#[test]
fn greater_at_root_matches_anything() {
    let mut t = SubscriptionTrie::new();
    t.subscribe(b">", sub(1, b"7")).unwrap();
    assert_eq!(collect(&t, b"foo").len(), 1);
    assert_eq!(collect(&t, b"foo.bar.baz").len(), 1);
    assert_eq!(collect(&t, b"a.b.c.d.e.f.g").len(), 1);
}

#[test]
fn star_alone_matches_one_token_only() {
    let mut t = SubscriptionTrie::new();
    t.subscribe(b"*", sub(1, b"7")).unwrap();
    assert_eq!(collect(&t, b"foo").len(), 1);
    assert_eq!(collect(&t, b"bar").len(), 1);
    assert!(collect(&t, b"foo.bar").is_empty());
}

#[test]
fn literal_and_star_both_match_disjoint_subscribers() {
    let mut t = SubscriptionTrie::new();
    t.subscribe(b"foo.bar", sub(1, b"7")).unwrap();
    t.subscribe(b"foo.*", sub(2, b"8")).unwrap();
    let m = collect(&t, b"foo.bar");
    assert_eq!(m.len(), 2);
    let conns: Vec<_> = m.iter().map(|s| s.conn_id.get()).collect();
    assert!(conns.contains(&1));
    assert!(conns.contains(&2));
}

#[test]
fn star_does_not_double_match_with_literal() {
    let mut t = SubscriptionTrie::new();
    t.subscribe(b"foo.*", sub(1, b"7")).unwrap();
    // `foo.bar` reaches the `*` child once via the star slot;
    // there is no literal `bar` child, so it is one match.
    assert_eq!(collect(&t, b"foo.bar").len(), 1);
}

#[test]
fn greater_and_star_compose() {
    let mut t = SubscriptionTrie::new();
    t.subscribe(b"foo.*.>", sub(1, b"7")).unwrap();
    assert!(collect(&t, b"foo.bar").is_empty());
    assert_eq!(collect(&t, b"foo.bar.baz").len(), 1);
    assert_eq!(collect(&t, b"foo.bar.baz.qux").len(), 1);
}

#[test]
fn unsubscribe_specific() {
    let mut t = SubscriptionTrie::new();
    t.subscribe(b"foo.bar", sub(1, b"7")).unwrap();
    t.subscribe(b"foo.bar", sub(1, b"8")).unwrap();
    t.subscribe(b"foo.bar", sub(2, b"7")).unwrap();
    assert!(t.unsubscribe(b"foo.bar", ConnectionId::new(1), b"7"));
    let m = collect(&t, b"foo.bar");
    assert_eq!(m.len(), 2);
    assert!(m
        .iter()
        .all(|s| !(s.conn_id == ConnectionId::new(1) && s.sid.as_ref() == b"7")));
    assert_eq!(t.total_subscriptions(), 2);
}

#[test]
fn unsubscribe_prunes_empty_branches() {
    let mut t = SubscriptionTrie::new();
    t.subscribe(b"foo.bar.baz", sub(1, b"7")).unwrap();
    assert!(t.unsubscribe(b"foo.bar.baz", ConnectionId::new(1), b"7"));
    assert!(t.is_empty(), "trie should be fully pruned");
    assert_eq!(t.total_subscriptions(), 0);
}

#[test]
fn unsubscribe_does_not_prune_shared_branches() {
    let mut t = SubscriptionTrie::new();
    t.subscribe(b"foo.bar.baz", sub(1, b"7")).unwrap();
    t.subscribe(b"foo.bar.qux", sub(2, b"8")).unwrap();
    assert!(t.unsubscribe(b"foo.bar.baz", ConnectionId::new(1), b"7"));
    assert_eq!(collect(&t, b"foo.bar.qux").len(), 1);
    assert_eq!(t.total_subscriptions(), 1);
}

#[test]
fn unsubscribe_greater() {
    let mut t = SubscriptionTrie::new();
    t.subscribe(b"foo.>", sub(1, b"7")).unwrap();
    assert!(t.unsubscribe(b"foo.>", ConnectionId::new(1), b"7"));
    assert!(collect(&t, b"foo.bar").is_empty());
    assert!(t.is_empty());
}

#[test]
fn unsubscribe_star() {
    let mut t = SubscriptionTrie::new();
    t.subscribe(b"foo.*", sub(1, b"7")).unwrap();
    assert!(t.unsubscribe(b"foo.*", ConnectionId::new(1), b"7"));
    assert!(collect(&t, b"foo.bar").is_empty());
    assert!(t.is_empty());
}

#[test]
fn invalid_subscriber_subjects_rejected() {
    let mut t = SubscriptionTrie::new();
    assert_eq!(t.subscribe(b"", sub(1, b"7")), Err(SubjectError::Empty));
    assert_eq!(
        t.subscribe(b".foo", sub(1, b"7")),
        Err(SubjectError::EmptyToken)
    );
    assert_eq!(
        t.subscribe(b"foo.", sub(1, b"7")),
        Err(SubjectError::EmptyToken)
    );
    assert_eq!(
        t.subscribe(b"foo..bar", sub(1, b"7")),
        Err(SubjectError::EmptyToken)
    );
    assert_eq!(
        t.subscribe(b"foo.>.bar", sub(1, b"7")),
        Err(SubjectError::InvalidGreaterPosition)
    );
}

#[test]
fn invalid_publisher_subjects_rejected() {
    let t = SubscriptionTrie::new();
    assert_eq!(t.for_each_match(b""), Err(SubjectError::Empty));
    assert_eq!(
        t.for_each_match(b"foo..bar"),
        Err(SubjectError::EmptyToken)
    );
    assert_eq!(
        t.for_each_match(b"foo.*"),
        Err(SubjectError::WildcardInPublish)
    );
    assert_eq!(
        t.for_each_match(b"foo.>"),
        Err(SubjectError::WildcardInPublish)
    );
}

#[test]
fn star_and_greater_only_when_token_is_exactly_them() {
    let mut t = SubscriptionTrie::new();
    // `f*` is a literal two-byte token, not a wildcard.
    t.subscribe(b"f*", sub(1, b"7")).unwrap();
    assert!(collect(&t, b"foo").is_empty());
    assert_eq!(collect(&t, b"f*").len(), 1);
    // `f>` likewise literal.
    t.subscribe(b"f>", sub(2, b"8")).unwrap();
    assert_eq!(collect(&t, b"f>").len(), 1);
}

#[test]
fn queue_group_is_carried_through_to_callback() {
    let mut t = SubscriptionTrie::new();
    t.subscribe(b"foo", sub_qg(1, b"7", b"workers")).unwrap();
    t.subscribe(b"foo", sub(2, b"8")).unwrap();
    let mut grouped: Vec<Option<Vec<u8>>> = Vec::new();
    for s in t.for_each_match(b"foo").unwrap() {
        grouped.push(s.queue_group.as_ref().map(|q| q.to_vec()));
    }
    assert_eq!(grouped.len(), 2);
    assert!(grouped.contains(&Some(b"workers".to_vec())));
    assert!(grouped.contains(&None));
}

#[test]
fn many_subscribers_overflow_inline_smallvec() {
    let mut t = SubscriptionTrie::new();
    for i in 0..32u32 {
        t.subscribe(b"foo.bar", sub(i, b"7")).unwrap();
    }
    assert_eq!(collect(&t, b"foo.bar").len(), 32);
    assert_eq!(t.total_subscriptions(), 32);
}

#[test]
fn subscribers_come_out_in_the_order_of_the_walk() {
    let mut t = SubscriptionTrie::new();
    t.subscribe(b"a.*", sub(1, b"1")).unwrap();
    t.subscribe(b"a.b", sub(2, b"2")).unwrap();
    t.subscribe(b"a.>", sub(3, b"3")).unwrap();
    t.subscribe(b">", sub(4, b"4")).unwrap();
    t.subscribe(b"a.b", sub(5, b"5")).unwrap();
    let order: Vec<u32> = collect(&t, b"a.b").iter().map(|s| s.conn_id.get()).collect();
    assert_eq!(order, vec![4, 3, 2, 5, 1]);
}

#[test]
fn a_long_subject_overflows_the_inline_tokens() {
    let mut t = SubscriptionTrie::new();
    t.subscribe(b"a.b.c.d.e.f.g.h.i.j", sub(1, b"7")).unwrap();
    t.subscribe(b"a.b.c.d.e.f.g.h.i.*", sub(2, b"7")).unwrap();
    assert_eq!(collect(&t, b"a.b.c.d.e.f.g.h.i.j").len(), 2);
    assert_eq!(collect(&t, b"a.b.c.d.e.f.g.h.i.k").len(), 1);
}

#[test]
fn the_first_fault_of_a_published_subject_counts() {
    let t = SubscriptionTrie::new();
    assert_eq!(
        t.for_each_match(b"*..a"),
        Err(SubjectError::WildcardInPublish)
    );
    assert_eq!(t.for_each_match(b"..*"), Err(SubjectError::EmptyToken));
}

#[test]
fn an_empty_token_counts_before_a_misplaced_greater() {
    let mut t = SubscriptionTrie::new();
    assert_eq!(
        t.subscribe(b">.a..b", sub(1, b"7")),
        Err(SubjectError::EmptyToken)
    );
    assert_eq!(t.total_subscriptions(), 0);
}

#[test]
fn unsubscribe_takes_back_a_subscribe() {
    let mut t = SubscriptionTrie::new();
    t.subscribe(b"a.b", sub(1, b"1")).unwrap();
    let before = collect(&t, b"a.b");
    t.subscribe(b"a.b", sub(2, b"2")).unwrap();
    assert_eq!(collect(&t, b"a.b").len(), 2);
    assert!(t.unsubscribe(b"a.b", ConnectionId::new(2), b"2"));
    assert_eq!(collect(&t, b"a.b"), before);
    assert_eq!(t.total_subscriptions(), 1);
}

#[test]
fn unsubscribing_what_is_not_there_changes_nothing() {
    let mut t = SubscriptionTrie::new();
    t.subscribe(b"a.b", sub(1, b"1")).unwrap();
    assert!(!t.unsubscribe(b"a.b", ConnectionId::new(1), b"2"));
    assert!(!t.unsubscribe(b"a.b", ConnectionId::new(2), b"1"));
    assert!(!t.unsubscribe(b"a.*", ConnectionId::new(1), b"1"));
    assert!(!t.unsubscribe(b"a", ConnectionId::new(1), b"1"));
    assert!(!t.unsubscribe(b"x.y.z", ConnectionId::new(1), b"1"));
    assert!(!t.unsubscribe(b"", ConnectionId::new(1), b"1"));
    assert!(!t.unsubscribe(b"a.>.b", ConnectionId::new(1), b"1"));
    assert_eq!(t.total_subscriptions(), 1);
    assert_eq!(collect(&t, b"a.b"), vec![sub(1, b"1")]);
}

#[test]
fn repeated_subscriptions_leave_one_by_one() {
    let mut t = SubscriptionTrie::new();
    let s = sub(1, b"7");
    assert_eq!(t.subscribe(b"foo", s.clone()), Ok(()));
    assert_eq!(t.subscribe(b"foo", s), Ok(()));
    assert_eq!(t.total_subscriptions(), 2);
    assert!(t.unsubscribe(b"foo", ConnectionId::new(1), b"7"));
    assert_eq!(collect(&t, b"foo"), vec![sub(1, b"7")]);
    assert_eq!(t.total_subscriptions(), 1);
    assert!(t.unsubscribe(b"foo", ConnectionId::new(1), b"7"));
    assert!(collect(&t, b"foo").is_empty());
    assert_eq!(t.total_subscriptions(), 0);
    assert!(t.is_empty());
    assert!(!t.unsubscribe(b"foo", ConnectionId::new(1), b"7"));
}

#[test]
fn the_oldest_of_repeated_subscriptions_goes_first() {
    let mut t = SubscriptionTrie::new();
    t.subscribe(b"a.>", sub_qg(1, b"7", b"first")).unwrap();
    t.subscribe(b"a.>", sub(2, b"7")).unwrap();
    t.subscribe(b"a.>", sub_qg(1, b"7", b"second")).unwrap();
    assert!(t.unsubscribe(b"a.>", ConnectionId::new(1), b"7"));
    assert_eq!(
        collect(&t, b"a.b"),
        vec![sub(2, b"7"), sub_qg(1, b"7", b"second")]
    );
}

#[test]
fn unsubscribing_takes_one_and_leaves_the_others_as_they_are() {
    let mut t = SubscriptionTrie::new();
    t.subscribe(b"a.*", sub(1, b"1")).unwrap();
    t.subscribe(b"a.b", sub(1, b"1")).unwrap();
    t.subscribe(b"a.b", sub(1, b"2")).unwrap();
    t.subscribe(b"a.b", sub(2, b"1")).unwrap();
    assert!(t.unsubscribe(b"a.b", ConnectionId::new(1), b"1"));
    assert_eq!(t.total_subscriptions(), 3);
    assert_eq!(
        collect(&t, b"a.b"),
        vec![sub(1, b"2"), sub(2, b"1"), sub(1, b"1")]
    );
    assert_eq!(collect(&t, b"a.c"), vec![sub(1, b"1")]);
}

#[test]
fn a_connection_takes_all_its_subscriptions_along() {
    let mut t = SubscriptionTrie::new();
    let patterns: [&[u8]; 8] = [
        b"a", b"a.b", b"a.*", b"a.>", b">", b"*", b"*.b.c", b"x.y.z",
    ];
    for p in patterns {
        t.subscribe(p, sub(1, b"1")).unwrap();
        t.subscribe(p, sub(1, b"1")).unwrap();
        t.subscribe(p, sub(2, b"1")).unwrap();
        t.subscribe(p, sub(1, b"2")).unwrap();
    }
    t.subscribe(b"only.mine.*.>", sub(1, b"9")).unwrap();
    assert_eq!(t.total_subscriptions(), 33);
    t.remove_connection(ConnectionId::new(1));
    assert_eq!(t.total_subscriptions(), 8);
    assert_eq!(collect(&t, b"a"), vec![sub(2, b"1"); 3]);
    assert_eq!(collect(&t, b"a.b.c"), vec![sub(2, b"1"); 3]);
    assert_eq!(collect(&t, b"only.mine.too.long"), vec![sub(2, b"1")]);
    t.remove_connection(ConnectionId::new(3));
    assert_eq!(t.total_subscriptions(), 8);
    t.remove_connection(ConnectionId::new(2));
    assert_eq!(t.total_subscriptions(), 0);
    assert!(t.is_empty());
}

/// Whether a pattern matches a subject, token by token.
fn matches(pattern: &[u8], subject: &[u8]) -> bool {
    let p: Vec<&[u8]> = pattern.split(|b| *b == b'.').collect();
    let s: Vec<&[u8]> = subject.split(|b| *b == b'.').collect();
    let mut i = 0;
    while i < p.len() {
        if p[i] == b">" {
            return s.len() > i;
        }
        if i >= s.len() || (p[i] != b"*" && p[i] != s[i]) {
            return false;
        }
        i += 1;
    }
    s.len() == p.len()
}

#[test]
fn every_subject_reaches_exactly_the_matching_patterns() {
    let patterns: [&[u8]; 14] = [
        b"a", b"b", b"*", b">", b"a.b", b"a.*", b"*.b", b"*.*", b"a.>", b"*.>", b"a.b.c",
        b"a.*.c", b"a.b.>", b"*.b.*",
    ];
    let subjects: [&[u8]; 8] = [
        b"a", b"b", b"c", b"a.b", b"a.c", b"b.b", b"a.b.c", b"a.x.c",
    ];
    let mut t = SubscriptionTrie::new();
    for (i, p) in patterns.iter().enumerate() {
        t.subscribe(p, sub(i as u32, b"s")).unwrap();
    }
    for s in subjects {
        let mut got: Vec<u32> = collect(&t, s).iter().map(|x| x.conn_id.get()).collect();
        got.sort_unstable();
        let mut want: Vec<u32> = Vec::new();
        for (i, p) in patterns.iter().enumerate() {
            if matches(p, s) {
                want.push(i as u32);
            }
        }
        assert_eq!(got, want);
    }
}

#[test]
fn a_subject_may_be_long() {
    let mut t = SubscriptionTrie::new();
    let long = vec![b'x'; 9 << 20];
    t.subscribe(&long, sub(1, b"1")).unwrap();
    assert_eq!(collect(&t, &long), vec![sub(1, b"1")]);
    assert!(collect(&t, &long[1..]).is_empty());
    assert!(t.unsubscribe(&long, ConnectionId::new(1), b"1"));
    assert!(t.is_empty());
}
