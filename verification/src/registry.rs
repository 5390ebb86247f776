//! The broker's subscription registry.
//!
//! `ChanMan` maps each topic to the set of sessions subscribed to it, and
//! each subscription to a deliverable: the index of a mailbox held by the
//! broker that queues outbound messages for that subscription in first-in,
//! first-out order. `publish` fans a message out to the mailbox of every
//! subscriber of the topic, as observed at the single instant of the call;
//! the order in which subscribers are served within one fan-out is
//! deliberately unspecified. Mailboxes are unbounded by design: enqueueing
//! never rejects a message, so a consumer that cannot keep up accumulates
//! memory; that tradeoff decouples publishers from slow consumers.
//!
//! The registry itself does no I/O and never blocks; callers that share one
//! `ChanMan` across threads serialize access to it externally.

use vstd::prelude::*;

verus! {

/// One subscriber of a topic: the session's identifier and the deliverable
/// (mailbox index) that publishes to the topic are queued into.
pub struct SubEntry {
    pub session: String,
    pub deliverable: usize,
}

/// All current subscribers of one topic.
pub struct TopicSubs {
    pub name: String,
    pub subs: Vec<SubEntry>,
}

/// The subscription registry together with the per-deliverable mailboxes.
pub struct ChanMan {
    pub topics: Vec<TopicSubs>,
    pub boxes: Vec<Vec<String>>,
}

/// The subscriber entries of topic `t`: those of the first element of `ts`
/// named `t`, or empty if no element is.
pub open spec fn topic_entries(ts: Seq<TopicSubs>, t: Seq<char>) -> Seq<SubEntry>
    decreases ts.len(),
{
    if ts.len() == 0 {
        Seq::empty()
    } else if ts[0].name@ == t {
        ts[0].subs@
    } else {
        topic_entries(ts.drop_first(), t)
    }
}

/// The deliverable registered for session `s` in `es`, going by the first
/// entry for `s`.
pub open spec fn entry_deliverable(es: Seq<SubEntry>, s: Seq<char>) -> Option<usize>
    decreases es.len(),
{
    if es.len() == 0 {
        None
    } else if es[0].session@ == s {
        Some(es[0].deliverable)
    } else {
        entry_deliverable(es.drop_first(), s)
    }
}

/// The deliverables of the entries, in entry order.
pub open spec fn deliverables_of(es: Seq<SubEntry>) -> Seq<usize> {
    es.map_values(|e: SubEntry| e.deliverable)
}

/// How often `x` occurs in `s`.
pub open spec fn count_of(s: Seq<usize>, x: usize) -> nat
    decreases s.len(),
{
    if s.len() == 0 {
        0
    } else {
        count_of(s.drop_last(), x) + (if s.last() == x { 1nat } else { 0nat })
    }
}

/// `n` copies of the message `m`.
pub open spec fn repeated(m: Seq<char>, n: nat) -> Seq<Seq<char>> {
    Seq::new(n, |i: int| m)
}

/// No session identifier occurs twice among the entries.
pub open spec fn distinct_sessions(es: Seq<SubEntry>) -> bool {
    forall|i: int, j: int| 0 <= i < j < es.len() ==> es[i].session@ != es[j].session@
}

impl ChanMan {
    /// Topic names are unique, and within each topic so are the sessions:
    /// at most one subscription exists per (topic, session) pair.
    pub open spec fn wf(self) -> bool {
        &&& (forall|i: int, j: int|
            0 <= i < j < self.topics@.len() ==> self.topics@[i].name@ != self.topics@[j].name@)
        &&& (forall|i: int|
            0 <= i < self.topics@.len() ==> distinct_sessions(#[trigger] self.topics@[i].subs@))
    }

    /// The deliverable of session `s` on topic `t`, if subscribed.
    pub open spec fn sub_of(self, t: Seq<char>, s: Seq<char>) -> Option<usize> {
        entry_deliverable(topic_entries(self.topics@, t), s)
    }

    /// The deliverables a publish to `t` fans out to, one per subscriber
    /// entry of the topic.
    pub open spec fn snapshot_of(self, t: Seq<char>) -> Seq<usize> {
        deliverables_of(topic_entries(self.topics@, t))
    }

    /// How many mailboxes have been opened.
    pub open spec fn mailbox_count(self) -> nat {
        self.boxes@.len()
    }

    /// The pending messages of mailbox `d`, oldest first, if `d` is open.
    pub open spec fn mailbox_of(self, d: usize) -> Option<Seq<Seq<char>>> {
        if d < self.boxes@.len() {
            Some(self.boxes@[d as int]@.map_values(|m: String| m@))
        } else {
            None
        }
    }

    /// An empty registry: no topics, no subscriptions, no mailboxes.
    pub fn new() -> (r: Self)
        ensures
            r.wf(),
            forall|t: Seq<char>, s: Seq<char>| #![auto] r.sub_of(t, s) is None,
            forall|t: Seq<char>| #![auto] r.snapshot_of(t) == Seq::<usize>::empty(),
            r.mailbox_count() == 0,
            forall|d: usize| #![auto] r.mailbox_of(d) is None,
    {
        let r = ChanMan { topics: Vec::new(), boxes: Vec::new() };
        proof {
            assert(forall|t: Seq<char>| #![auto]
                topic_entries(r.topics@, t) == Seq::<SubEntry>::empty());
            assert(forall|t: Seq<char>| #![auto]
                deliverables_of(topic_entries(r.topics@, t)) =~= Seq::<usize>::empty());
        }
        r
    }

    /// Finds the first element of `ts` named `t`.
    fn find_topic(ts: &Vec<TopicSubs>, t: &String) -> (r: Option<usize>)
        ensures
            (match r {
                Some(i) => {
                    &&& i < ts@.len()
                    &&& ts@[i as int].name@ == t@
                    &&& topic_entries(ts@, t@) == ts@[i as int].subs@
                    &&& (forall|k: int| 0 <= k < i ==> ts@[k].name@ != t@)
                },
                None => {
                    &&& topic_entries(ts@, t@) == Seq::<SubEntry>::empty()
                    &&& (forall|k: int| 0 <= k < ts@.len() ==> ts@[k].name@ != t@)
                },
            }),
    {
        let n = ts.len();
        let mut i: usize = 0;
        proof {
            assert(ts@.skip(0) =~= ts@);
        }
        while i < n
            invariant
                n == ts@.len(),
                i <= n,
                topic_entries(ts@, t@) == topic_entries(ts@.skip(i as int), t@),
                forall|k: int| 0 <= k < i ==> ts@[k].name@ != t@,
            decreases n - i,
        {
            if ts[i].name == *t {
                proof {
                    assert(ts@.skip(i as int)[0] == ts@[i as int]);
                }
                return Some(i);
            }
            proof {
                assert(ts@.skip(i as int).drop_first() =~= ts@.skip(i as int + 1));
            }
            i += 1;
        }
        proof {
            assert(ts@.skip(n as int) =~= Seq::<TopicSubs>::empty());
        }
        None
    }

    /// Finds the first entry of `es` for session `s`.
    fn find_session(es: &Vec<SubEntry>, s: &String) -> (r: Option<usize>)
        ensures
            (match r {
                Some(j) => {
                    &&& j < es@.len()
                    &&& es@[j as int].session@ == s@
                    &&& entry_deliverable(es@, s@) == Some(es@[j as int].deliverable)
                    &&& (forall|k: int| 0 <= k < j ==> es@[k].session@ != s@)
                },
                None => {
                    &&& entry_deliverable(es@, s@) is None
                    &&& (forall|k: int| 0 <= k < es@.len() ==> es@[k].session@ != s@)
                },
            }),
    {
        let n = es.len();
        let mut j: usize = 0;
        proof {
            assert(es@.skip(0) =~= es@);
        }
        while j < n
            invariant
                n == es@.len(),
                j <= n,
                entry_deliverable(es@, s@) == entry_deliverable(es@.skip(j as int), s@),
                forall|k: int| 0 <= k < j ==> es@[k].session@ != s@,
            decreases n - j,
        {
            if es[j].session == *s {
                proof {
                    assert(es@.skip(j as int)[0] == es@[j as int]);
                }
                return Some(j);
            }
            proof {
                assert(es@.skip(j as int).drop_first() =~= es@.skip(j as int + 1));
            }
            j += 1;
        }
        proof {
            assert(es@.skip(n as int) =~= Seq::<SubEntry>::empty());
        }
        None
    }
}


/// Entry lookup ignores entries whose session is absent.
proof fn lemma_entry_absent_none(es: Seq<SubEntry>, s: Seq<char>)
    requires
        forall|k: int| 0 <= k < es.len() ==> es[k].session@ != s,
    ensures
        entry_deliverable(es, s) is None,
    decreases es.len(),
{
    if es.len() > 0 {
        assert forall|k: int| #![trigger es.drop_first()[k]] 0 <= k < es.drop_first().len()
            implies es.drop_first()[k].session@ != s by {
            assert(es.drop_first()[k] == es[k + 1]);
        }
        lemma_entry_absent_none(es.drop_first(), s);
    }
}

/// Replacing the first entry of a session changes only that session's lookup.
proof fn lemma_entry_deliverable_update(es: Seq<SubEntry>, j: int, e: SubEntry, s: Seq<char>)
    requires
        0 <= j < es.len(),
        forall|k: int| 0 <= k < j ==> es[k].session@ != es[j].session@,
        e.session@ == es[j].session@,
    ensures
        entry_deliverable(es.update(j, e), s) == (if s == es[j].session@ {
            Some(e.deliverable)
        } else {
            entry_deliverable(es, s)
        }),
    decreases j,
{
    let es2 = es.update(j, e);
    if j == 0 {
        assert(es2[0] == e);
        if s != es[0].session@ {
            assert(es2.drop_first() =~= es.drop_first());
        }
    } else {
        assert(es2[0] == es[0]);
        if s == es[0].session@ {
            assert(es[0].session@ != es[j].session@);
        } else {
            assert(es2.drop_first() =~= es.drop_first().update(j - 1, e));
            assert(es.drop_first()[j - 1] == es[j]);
            assert forall|k: int| #![trigger es.drop_first()[k]] 0 <= k < j - 1
                implies es.drop_first()[k].session@ != es.drop_first()[j - 1].session@ by {
                assert(es.drop_first()[k] == es[k + 1]);
            }
            lemma_entry_deliverable_update(es.drop_first(), j - 1, e, s);
        }
    }
}

/// Appending an entry for a fresh session changes only that session's lookup.
proof fn lemma_entry_deliverable_push(es: Seq<SubEntry>, e: SubEntry, s: Seq<char>)
    requires
        forall|k: int| 0 <= k < es.len() ==> es[k].session@ != e.session@,
    ensures
        entry_deliverable(es.push(e), s) == (if s == e.session@ {
            Some(e.deliverable)
        } else {
            entry_deliverable(es, s)
        }),
    decreases es.len(),
{
    let es2 = es.push(e);
    if es.len() == 0 {
        assert(es2[0] == e);
        if s != e.session@ {
            assert(es2.drop_first() =~= Seq::<SubEntry>::empty());
            assert(entry_deliverable(es2.drop_first(), s) is None);
        }
    } else {
        assert(es2[0] == es[0]);
        if s == es[0].session@ {
            assert(es[0].session@ != e.session@);
        } else {
            assert(es2.drop_first() =~= es.drop_first().push(e));
            assert forall|k: int| #![trigger es.drop_first()[k]] 0 <= k < es.drop_first().len()
                implies es.drop_first()[k].session@ != e.session@ by {
                assert(es.drop_first()[k] == es[k + 1]);
            }
            lemma_entry_deliverable_push(es.drop_first(), e, s);
        }
    }
}

/// Removing a session's entry makes that session's lookup empty and leaves
/// the others alone.
proof fn lemma_entry_deliverable_remove(es: Seq<SubEntry>, j: int, s: Seq<char>)
    requires
        0 <= j < es.len(),
        distinct_sessions(es),
    ensures
        entry_deliverable(es.remove(j), s) == (if s == es[j].session@ {
            None::<usize>
        } else {
            entry_deliverable(es, s)
        }),
    decreases j,
{
    let es2 = es.remove(j);
    if j == 0 {
        assert(es2 =~= es.drop_first());
        if s == es[0].session@ {
            assert forall|k: int| #![trigger es2[k]] 0 <= k < es2.len() implies es2[k].session@
                != s by {
                assert(es2[k] == es[k + 1]);
            }
            lemma_entry_absent_none(es2, s);
        }
    } else {
        assert(es2[0] == es[0]);
        if s == es[0].session@ {
            assert(es[0].session@ != es[j].session@);
        } else {
            assert(es2.drop_first() =~= es.drop_first().remove(j - 1));
            assert(distinct_sessions(es.drop_first())) by {
                assert forall|a: int, b: int| #![trigger es.drop_first()[a], es.drop_first()[b]]
                    0 <= a < b < es.drop_first().len() implies es.drop_first()[a].session@
                    != es.drop_first()[b].session@ by {
                    assert(es.drop_first()[a] == es[a + 1]);
                    assert(es.drop_first()[b] == es[b + 1]);
                }
            }
            assert(es.drop_first()[j - 1] == es[j]);
            lemma_entry_deliverable_remove(es.drop_first(), j - 1, s);
        }
    }
}

/// Replacing the first topic of a name changes only that topic's entries.
proof fn lemma_topic_entries_update(ts: Seq<TopicSubs>, i: int, v: TopicSubs, t: Seq<char>)
    requires
        0 <= i < ts.len(),
        forall|k: int| 0 <= k < i ==> ts[k].name@ != ts[i].name@,
        v.name@ == ts[i].name@,
    ensures
        topic_entries(ts.update(i, v), t) == (if t == ts[i].name@ {
            v.subs@
        } else {
            topic_entries(ts, t)
        }),
    decreases i,
{
    let ts2 = ts.update(i, v);
    if i == 0 {
        assert(ts2[0] == v);
        if t != ts[0].name@ {
            assert(ts2.drop_first() =~= ts.drop_first());
        }
    } else {
        assert(ts2[0] == ts[0]);
        if t == ts[0].name@ {
            assert(ts[0].name@ != ts[i].name@);
        } else {
            assert(ts2.drop_first() =~= ts.drop_first().update(i - 1, v));
            assert(ts.drop_first()[i - 1] == ts[i]);
            assert forall|k: int| #![trigger ts.drop_first()[k]] 0 <= k < i - 1
                implies ts.drop_first()[k].name@ != ts.drop_first()[i - 1].name@ by {
                assert(ts.drop_first()[k] == ts[k + 1]);
            }
            lemma_topic_entries_update(ts.drop_first(), i - 1, v, t);
        }
    }
}

/// Appending a topic of a fresh name changes only that topic's entries.
proof fn lemma_topic_entries_push(ts: Seq<TopicSubs>, v: TopicSubs, t: Seq<char>)
    requires
        forall|k: int| 0 <= k < ts.len() ==> ts[k].name@ != v.name@,
    ensures
        topic_entries(ts.push(v), t) == (if t == v.name@ {
            v.subs@
        } else {
            topic_entries(ts, t)
        }),
    decreases ts.len(),
{
    let ts2 = ts.push(v);
    if ts.len() == 0 {
        assert(ts2[0] == v);
        if t != v.name@ {
            assert(ts2.drop_first() =~= Seq::<TopicSubs>::empty());
            assert(topic_entries(ts2.drop_first(), t) == Seq::<SubEntry>::empty());
        }
    } else {
        assert(ts2[0] == ts[0]);
        if t == ts[0].name@ {
            assert(ts[0].name@ != v.name@);
        } else {
            assert(ts2.drop_first() =~= ts.drop_first().push(v));
            assert forall|k: int| #![trigger ts.drop_first()[k]] 0 <= k < ts.drop_first().len()
                implies ts.drop_first()[k].name@ != v.name@ by {
                assert(ts.drop_first()[k] == ts[k + 1]);
            }
            lemma_topic_entries_push(ts.drop_first(), v, t);
        }
    }
}

/// How one subscribe call changes the registry: the (topic, session) pair now
/// carries deliverable `d`; every other subscription, every other topic's
/// fan-out snapshot, and every mailbox are unchanged.
pub open spec fn subscribe_updated(
    pre: ChanMan,
    post: ChanMan,
    t: Seq<char>,
    s: Seq<char>,
    d: usize,
) -> bool {
    &&& (forall|t2: Seq<char>, s2: Seq<char>| #![auto]
        post.sub_of(t2, s2) == (if t2 == t && s2 == s {
            Some(d)
        } else {
            pre.sub_of(t2, s2)
        }))
    &&& (forall|t2: Seq<char>| t2 != t ==> #[trigger] post.snapshot_of(t2) == pre.snapshot_of(t2))
    &&& (forall|d2: usize| #![auto] post.mailbox_of(d2) == pre.mailbox_of(d2))
    &&& post.mailbox_count() == pre.mailbox_count()
}

/// How one unsubscribe call changes the registry: the (topic, session)
/// subscription is gone; everything else is unchanged.
pub open spec fn unsubscribe_updated(
    pre: ChanMan,
    post: ChanMan,
    t: Seq<char>,
    s: Seq<char>,
) -> bool {
    &&& (forall|t2: Seq<char>, s2: Seq<char>| #![auto]
        post.sub_of(t2, s2) == (if t2 == t && s2 == s {
            None::<usize>
        } else {
            pre.sub_of(t2, s2)
        }))
    &&& (forall|t2: Seq<char>| t2 != t ==> #[trigger] post.snapshot_of(t2) == pre.snapshot_of(t2))
    &&& (forall|d2: usize| #![auto] post.mailbox_of(d2) == pre.mailbox_of(d2))
    &&& post.mailbox_count() == pre.mailbox_count()
}


impl ChanMan {
    /// Inserts or replaces the subscription of `session_key` on `topic` so
    /// that it carries `deliverable`; always succeeds, and nothing else about
    /// the registry changes.
    pub fn subscribe(&mut self, session_key: String, topic: String, deliverable: usize)
        requires
            old(self).wf(),
            session_key@.len() > 0,
        ensures
            final(self).wf(),
            final(self).sub_of(topic@, session_key@) == Some(deliverable),
            subscribe_updated(*old(self), *final(self), topic@, session_key@, deliverable),
    {
        let ghost pre = *old(self);
        let ghost ts = pre.topics@;
        match Self::find_topic(&self.topics, &topic) {
            Some(i) => {
                let ghost es = ts[i as int].subs@;
                match Self::find_session(&self.topics[i].subs, &session_key) {
                    Some(j) => {
                        self.topics[i].subs[j] = SubEntry { session: session_key, deliverable };
                        proof {
                            let v = self.topics@[i as int];
                            let e = v.subs@[j as int];
                            assert(v.subs@ == es.update(j as int, e));
                            assert(self.topics@ == ts.update(i as int, v));
                            assert(es[j as int].session@ == e.session@);
                            assert forall|t2: Seq<char>, s2: Seq<char>| #![auto]
                                self.sub_of(t2, s2) == (if t2 == topic@ && s2 == session_key@ {
                                    Some(deliverable)
                                } else {
                                    pre.sub_of(t2, s2)
                                }) by {
                                lemma_topic_entries_update(ts, i as int, v, t2);
                                if t2 == topic@ {
                                    lemma_entry_deliverable_update(es, j as int, e, s2);
                                }
                            }
                            assert forall|t2: Seq<char>| t2 != topic@ implies #[trigger]
                                self.snapshot_of(t2) == pre.snapshot_of(t2) by {
                                lemma_topic_entries_update(ts, i as int, v, t2);
                            }
                            assert(distinct_sessions(v.subs@)) by {
                                assert forall|a: int, b: int| #![trigger v.subs@[a], v.subs@[b]]
                                    0 <= a < b < v.subs@.len() implies v.subs@[a].session@
                                    != v.subs@[b].session@ by {
                                    assert(es[a].session@ != es[b].session@);
                                }
                            }
                            assert(self.wf());
                        }
                    },
                    None => {
                        self.topics[i].subs.push(SubEntry { session: session_key, deliverable });
                        proof {
                            let v = self.topics@[i as int];
                            let e = v.subs@[es.len() as int];
                            assert(v.subs@ == es.push(e));
                            assert(self.topics@ == ts.update(i as int, v));
                            assert forall|t2: Seq<char>, s2: Seq<char>| #![auto]
                                self.sub_of(t2, s2) == (if t2 == topic@ && s2 == session_key@ {
                                    Some(deliverable)
                                } else {
                                    pre.sub_of(t2, s2)
                                }) by {
                                lemma_topic_entries_update(ts, i as int, v, t2);
                                if t2 == topic@ {
                                    lemma_entry_deliverable_push(es, e, s2);
                                }
                            }
                            assert forall|t2: Seq<char>| t2 != topic@ implies #[trigger]
                                self.snapshot_of(t2) == pre.snapshot_of(t2) by {
                                lemma_topic_entries_update(ts, i as int, v, t2);
                            }
                            assert(distinct_sessions(v.subs@)) by {
                                assert forall|a: int, b: int| #![trigger v.subs@[a], v.subs@[b]]
                                    0 <= a < b < v.subs@.len() implies v.subs@[a].session@
                                    != v.subs@[b].session@ by {
                                    if b < es.len() {
                                        assert(es[a].session@ != es[b].session@);
                                    } else {
                                        assert(es[a].session@ != session_key@);
                                    }
                                }
                            }
                            assert(self.wf());
                        }
                    },
                }
            },
            None => {
                let mut subs: Vec<SubEntry> = Vec::new();
                subs.push(SubEntry { session: session_key, deliverable });
                self.topics.push(TopicSubs { name: topic, subs });
                proof {
                    let v = self.topics@[ts.len() as int];
                    assert(self.topics@ == ts.push(v));
                    let e = v.subs@[0];
                    assert(v.subs@ =~= Seq::<SubEntry>::empty().push(e));
                    assert forall|t2: Seq<char>, s2: Seq<char>| #![auto]
                        self.sub_of(t2, s2) == (if t2 == topic@ && s2 == session_key@ {
                            Some(deliverable)
                        } else {
                            pre.sub_of(t2, s2)
                        }) by {
                        lemma_topic_entries_push(ts, v, t2);
                        if t2 == topic@ {
                            assert(entry_deliverable(v.subs@, s2) == (if s2 == session_key@ {
                                Some(deliverable)
                            } else {
                                entry_deliverable(v.subs@.drop_first(), s2)
                            }));
                            if s2 != session_key@ {
                                assert(v.subs@.drop_first() =~= Seq::<SubEntry>::empty());
                                assert(entry_deliverable(v.subs@.drop_first(), s2) is None);
                            }
                        }
                    }
                    assert forall|t2: Seq<char>| t2 != topic@ implies #[trigger]
                        self.snapshot_of(t2) == pre.snapshot_of(t2) by {
                        lemma_topic_entries_push(ts, v, t2);
                    }
                    assert(self.wf());
                }
            },
        }
    }

    /// Removes the subscription of `session_key` on `topic` if present; a
    /// missing topic or session is a silent no-op, not an error. Nothing else
    /// about the registry changes.
    pub fn unsubscribe(&mut self, session_key: String, topic: String)
        requires
            old(self).wf(),
        ensures
            final(self).wf(),
            final(self).sub_of(topic@, session_key@) is None,
            unsubscribe_updated(*old(self), *final(self), topic@, session_key@),
    {
        let ghost pre = *old(self);
        let ghost ts = pre.topics@;
        match Self::find_topic(&self.topics, &topic) {
            Some(i) => {
                let ghost es = ts[i as int].subs@;
                match Self::find_session(&self.topics[i].subs, &session_key) {
                    Some(j) => {
                        self.topics[i].subs.remove(j);
                        proof {
                            let v = self.topics@[i as int];
                            assert(v.subs@ == es.remove(j as int));
                            assert(self.topics@ == ts.update(i as int, v));
                            assert(distinct_sessions(es));
                            assert forall|t2: Seq<char>, s2: Seq<char>| #![auto]
                                self.sub_of(t2, s2) == (if t2 == topic@ && s2 == session_key@ {
                                    None::<usize>
                                } else {
                                    pre.sub_of(t2, s2)
                                }) by {
                                lemma_topic_entries_update(ts, i as int, v, t2);
                                if t2 == topic@ {
                                    lemma_entry_deliverable_remove(es, j as int, s2);
                                }
                            }
                            assert forall|t2: Seq<char>| t2 != topic@ implies #[trigger]
                                self.snapshot_of(t2) == pre.snapshot_of(t2) by {
                                lemma_topic_entries_update(ts, i as int, v, t2);
                            }
                            assert(distinct_sessions(v.subs@)) by {
                                assert forall|a: int, b: int| #![trigger v.subs@[a], v.subs@[b]]
                                    0 <= a < b < v.subs@.len() implies v.subs@[a].session@
                                    != v.subs@[b].session@ by {
                                    let a0 = if a < j { a } else { a + 1 };
                                    let b0 = if b < j { b } else { b + 1 };
                                    assert(v.subs@[a] == es[a0]);
                                    assert(v.subs@[b] == es[b0]);
                                    assert(es[a0].session@ != es[b0].session@);
                                }
                            }
                            assert(self.wf());
                        }
                    },
                    None => {
                        proof {
                            assert(*self == pre);
                        }
                    },
                }
            },
            None => {
                proof {
                    assert(*self == pre);
                }
            },
        }
    }
}


/// Extending a prefix by one element adds that element's occurrences.
proof fn lemma_count_take_step(s: Seq<usize>, j: int, x: usize)
    requires
        0 <= j < s.len(),
    ensures
        count_of(s.take(j + 1), x) == count_of(s.take(j), x) + (if s[j] == x {
            1nat
        } else {
            0nat
        }),
{
    assert(s.take(j + 1).drop_last() =~= s.take(j));
    assert(s.take(j + 1).last() == s[j]);
}

/// How one publish call changes the registry: no subscription changes, and
/// every open mailbox gains one copy of the message per entry its deliverable
/// has among the subscribers of `t` at the instant of the call. A mailbox
/// whose deliverable is not subscribed to `t` is untouched.
pub open spec fn publish_fanout(pre: ChanMan, post: ChanMan, t: Seq<char>, m: Seq<char>) -> bool {
    &&& (forall|t2: Seq<char>, s2: Seq<char>| #![auto] post.sub_of(t2, s2) == pre.sub_of(t2, s2))
    &&& (forall|t2: Seq<char>| #![auto] post.snapshot_of(t2) == pre.snapshot_of(t2))
    &&& post.mailbox_count() == pre.mailbox_count()
    &&& (forall|d: usize| #![auto]
        post.mailbox_of(d) == (match pre.mailbox_of(d) {
            Some(q) => Some(q + repeated(m, count_of(pre.snapshot_of(t), d))),
            None => None::<Seq<Seq<char>>>,
        }))
}

impl ChanMan {
    /// Opens a fresh, empty mailbox and returns its deliverable; existing
    /// mailboxes and all subscriptions are unchanged.
    pub fn open_mailbox(&mut self) -> (d: usize)
        requires
            old(self).wf(),
        ensures
            final(self).wf(),
            d == old(self).mailbox_count(),
            final(self).mailbox_count() == old(self).mailbox_count() + 1,
            old(self).mailbox_of(d) is None,
            final(self).mailbox_of(d) == Some(Seq::<Seq<char>>::empty()),
            forall|d2: usize| d2 != d ==> #[trigger] final(self).mailbox_of(d2) == old(
                self,
            ).mailbox_of(d2),
            forall|t2: Seq<char>, s2: Seq<char>| #![auto]
                final(self).sub_of(t2, s2) == old(self).sub_of(t2, s2),
            forall|t2: Seq<char>| #![auto] final(self).snapshot_of(t2) == old(self).snapshot_of(
                t2,
            ),
    {
        let d = self.boxes.len();
        self.boxes.push(Vec::new());
        proof {
            assert(self.boxes@[d as int]@.map_values(|m: String| m@) =~= Seq::<Seq<char>>::empty());
        }
        d
    }

    /// Hands out the oldest pending message of mailbox `d`, if any: delivery
    /// from one mailbox is first-in, first-out. Everything else is unchanged.
    pub fn take_outbound(&mut self, d: usize) -> (r: Option<String>)
        requires
            old(self).wf(),
        ensures
            final(self).wf(),
            final(self).mailbox_count() == old(self).mailbox_count(),
            forall|d2: usize| d2 != d ==> #[trigger] final(self).mailbox_of(d2) == old(
                self,
            ).mailbox_of(d2),
            forall|t2: Seq<char>, s2: Seq<char>| #![auto]
                final(self).sub_of(t2, s2) == old(self).sub_of(t2, s2),
            forall|t2: Seq<char>| #![auto] final(self).snapshot_of(t2) == old(self).snapshot_of(
                t2,
            ),
            (match old(self).mailbox_of(d) {
                None => r is None && final(self).mailbox_of(d) is None,
                Some(q) => {
                    if q.len() == 0 {
                        r is None && final(self).mailbox_of(d) == Some(q)
                    } else {
                        r matches Some(msg) && msg@ == q[0] && final(self).mailbox_of(d) == Some(
                            q.drop_first(),
                        )
                    }
                },
            }),
    {
        if d < self.boxes.len() {
            if self.boxes[d].len() > 0 {
                let ghost q0 = self.boxes@[d as int]@;
                let m = self.boxes[d].remove(0);
                proof {
                    assert(self.boxes@[d as int]@ =~= q0.drop_first());
                    assert(self.boxes@[d as int]@.map_values(|x: String| x@) =~= q0.map_values(
                        |x: String| x@,
                    ).drop_first());
                }
                Some(m)
            } else {
                None
            }
        } else {
            None
        }
    }

    /// Delivers `message` to every subscriber of `topic`, as observed at the
    /// single instant of the call: one copy per subscriber entry is appended
    /// to the entry's mailbox. With no subscribers this is a no-op that still
    /// succeeds. Subscriptions are never changed by a publish.
    pub fn publish(&mut self, topic: &str, message: &str)
        requires
            old(self).wf(),
        ensures
            final(self).wf(),
            publish_fanout(*old(self), *final(self), topic@, message@),
    {
        let ghost pre = *old(self);
        let ghost snap = pre.snapshot_of(topic@);
        let t = topic.to_owned();
        match Self::find_topic(&self.topics, &t) {
            None => {
                proof {
                    assert(snap =~= Seq::<usize>::empty());
                    assert forall|d: usize| #![auto]
                        self.mailbox_of(d) == (match pre.mailbox_of(d) {
                            Some(q) => Some(q + repeated(message@, count_of(snap, d))),
                            None => None::<Seq<Seq<char>>>,
                        }) by {
                        if d < self.boxes@.len() {
                            let q = pre.mailbox_of(d)->Some_0;
                            assert(q + repeated(message@, 0) =~= q);
                        }
                    }
                }
            },
            Some(i) => {
                let k = self.topics[i].subs.len();
                let mut j: usize = 0;
                proof {
                    assert(snap.take(0) =~= Seq::<usize>::empty());
                    assert forall|d: usize| #![auto]
                        self.mailbox_of(d) == (match pre.mailbox_of(d) {
                            Some(q) => Some(q + repeated(message@, count_of(snap.take(0), d))),
                            None => None::<Seq<Seq<char>>>,
                        }) by {
                        if d < self.boxes@.len() {
                            let q = pre.mailbox_of(d)->Some_0;
                            assert(q + repeated(message@, 0) =~= q);
                        }
                    }
                }
                while j < k
                    invariant
                        self.topics == pre.topics,
                        i < self.topics@.len(),
                        k == self.topics@[i as int].subs@.len(),
                        snap == deliverables_of(self.topics@[i as int].subs@),
                        snap.len() == k,
                        j <= k,
                        self.boxes@.len() == pre.boxes@.len(),
                        forall|d: usize| #![auto]
                            self.mailbox_of(d) == (match pre.mailbox_of(d) {
                                Some(q) => Some(
                                    q + repeated(message@, count_of(snap.take(j as int), d)),
                                ),
                                None => None::<Seq<Seq<char>>>,
                            }),
                    decreases k - j,
                {
                    let ghost prev = *self;
                    let d = self.topics[i].subs[j].deliverable;
                    proof {
                        assert(snap[j as int] == d);
                    }
                    if d < self.boxes.len() {
                        let msg = message.to_owned();
                        proof {
                            assert(msg@ == message@);
                        }
                        self.boxes[d].push(msg);
                        proof {
                            assert(self.boxes@ == prev.boxes@.update(
                                d as int,
                                self.boxes@[d as int],
                            ));
                            assert(self.boxes@[d as int]@ == prev.boxes@[d as int]@.push(msg));
                        }
                    }
                    proof {
                        assert forall|d2: usize| #![auto]
                            self.mailbox_of(d2) == (match pre.mailbox_of(d2) {
                                Some(q) => Some(
                                    q + repeated(
                                        message@,
                                        count_of(snap.take(j as int + 1), d2),
                                    ),
                                ),
                                None => None::<Seq<Seq<char>>>,
                            }) by {
                            lemma_count_take_step(snap, j as int, d2);
                            assert(prev.mailbox_of(d2) == (match pre.mailbox_of(d2) {
                                Some(q) => Some(
                                    q + repeated(message@, count_of(snap.take(j as int), d2)),
                                ),
                                None => None::<Seq<Seq<char>>>,
                            }));
                            if d2 < pre.boxes@.len() {
                                let q = pre.mailbox_of(d2)->Some_0;
                                let n = count_of(snap.take(j as int), d2);
                                assert(prev.boxes@[d2 as int]@.map_values(|x: String| x@) == q
                                    + repeated(message@, n));
                                if d2 == d {
                                    assert(self.boxes@[d2 as int]@.map_values(|x: String| x@)
                                        =~= prev.boxes@[d2 as int]@.map_values(
                                        |x: String| x@,
                                    ).push(message@));
                                    assert(q + repeated(message@, n + 1) =~= (q + repeated(
                                        message@,
                                        n,
                                    )).push(message@));
                                } else {
                                    assert(self.boxes@[d2 as int] == prev.boxes@[d2 as int]);
                                }
                            }
                        }
                    }
                    j += 1;
                }
                proof {
                    assert(snap.take(k as int) =~= snap);
                }
            },
        }
    }
}


/// Occurrence counting seen from the front of the sequence.
proof fn lemma_count_drop_first(s: Seq<usize>, x: usize)
    requires
        s.len() > 0,
    ensures
        count_of(s, x) == (if s[0] == x {
            1nat
        } else {
            0nat
        }) + count_of(s.drop_first(), x),
    decreases s.len(),
{
    if s.len() == 1 {
        assert(s.drop_last() =~= Seq::<usize>::empty());
        assert(s.drop_first() =~= Seq::<usize>::empty());
        assert(s.last() == s[0]);
    } else {
        lemma_count_drop_first(s.drop_last(), x);
        assert(s.drop_last().drop_first() =~= s.drop_first().drop_last());
        assert(s.drop_last()[0] == s[0]);
        assert(s.drop_first().last() == s.last());
    }
}

/// Whatever `topic_entries` returns is one of the topics' entry lists, so a
/// well-formed registry hands out session-distinct entries.
proof fn lemma_entries_distinct(ts: Seq<TopicSubs>, t: Seq<char>)
    requires
        forall|i: int| 0 <= i < ts.len() ==> distinct_sessions(#[trigger] ts[i].subs@),
    ensures
        distinct_sessions(topic_entries(ts, t)),
    decreases ts.len(),
{
    if ts.len() == 0 {
        assert(distinct_sessions(Seq::<SubEntry>::empty()));
    } else if ts[0].name@ == t {
        assert(ts[0].subs@ == topic_entries(ts, t));
    } else {
        assert forall|i: int| 0 <= i < ts.drop_first().len() implies distinct_sessions(
            #[trigger] ts.drop_first()[i].subs@,
        ) by {
            assert(ts.drop_first()[i] == ts[i + 1]);
        }
        lemma_entries_distinct(ts.drop_first(), t);
    }
}

/// A deliverable that no session holds does not occur in the fan-out list.
proof fn lemma_absent_count_zero(es: Seq<SubEntry>, d: usize)
    requires
        distinct_sessions(es),
        forall|s: Seq<char>| #![auto] entry_deliverable(es, s) != Some(d),
    ensures
        count_of(deliverables_of(es), d) == 0,
    decreases es.len(),
{
    if es.len() == 0 {
        assert(deliverables_of(es) =~= Seq::<usize>::empty());
    } else {
        let dv = deliverables_of(es);
        let tail = es.drop_first();
        lemma_count_drop_first(dv, d);
        assert(dv[0] == es[0].deliverable);
        assert(entry_deliverable(es, es[0].session@) == Some(es[0].deliverable));
        assert(es[0].deliverable != d);
        assert(distinct_sessions(tail)) by {
            assert forall|a: int, b: int| #![trigger tail[a], tail[b]] 0 <= a < b < tail.len()
                implies tail[a].session@ != tail[b].session@ by {
                assert(tail[a] == es[a + 1]);
                assert(tail[b] == es[b + 1]);
            }
        }
        assert forall|s: Seq<char>| #![auto] entry_deliverable(tail, s) != Some(d) by {
            if s == es[0].session@ {
                assert forall|k: int| #![trigger tail[k]] 0 <= k < tail.len()
                    implies tail[k].session@ != s by {
                    assert(tail[k] == es[k + 1]);
                }
                lemma_entry_absent_none(tail, s);
            } else {
                assert(entry_deliverable(es, s) == entry_deliverable(tail, s));
            }
        }
        lemma_absent_count_zero(tail, d);
        assert(deliverables_of(tail) =~= dv.drop_first());
    }
}

/// A deliverable exactly one session holds occurs exactly once in the
/// fan-out list.
proof fn lemma_unique_count_one(es: Seq<SubEntry>, s: Seq<char>, d: usize)
    requires
        distinct_sessions(es),
        entry_deliverable(es, s) == Some(d),
        forall|s2: Seq<char>| s2 != s ==> #[trigger] entry_deliverable(es, s2) != Some(d),
    ensures
        count_of(deliverables_of(es), d) == 1,
    decreases es.len(),
{
    let dv = deliverables_of(es);
    let tail = es.drop_first();
    lemma_count_drop_first(dv, d);
    assert(dv[0] == es[0].deliverable);
    assert(distinct_sessions(tail)) by {
        assert forall|a: int, b: int| #![trigger tail[a], tail[b]] 0 <= a < b < tail.len()
            implies tail[a].session@ != tail[b].session@ by {
            assert(tail[a] == es[a + 1]);
            assert(tail[b] == es[b + 1]);
        }
    }
    if es[0].session@ == s {
        assert(dv[0] == d);
        assert forall|s2: Seq<char>| #![auto] entry_deliverable(tail, s2) != Some(d) by {
            if s2 == s {
                assert forall|k: int| #![trigger tail[k]] 0 <= k < tail.len()
                    implies tail[k].session@ != s2 by {
                    assert(tail[k] == es[k + 1]);
                }
                lemma_entry_absent_none(tail, s2);
            } else {
                assert(entry_deliverable(es, s2) == entry_deliverable(tail, s2));
            }
        }
        lemma_absent_count_zero(tail, d);
        assert(deliverables_of(tail) =~= dv.drop_first());
    } else {
        assert(entry_deliverable(es, es[0].session@) == Some(es[0].deliverable));
        assert(es[0].deliverable != d);
        assert(entry_deliverable(tail, s) == Some(d));
        assert forall|s2: Seq<char>| s2 != s implies #[trigger] entry_deliverable(tail, s2)
            != Some(d) by {
            if s2 == es[0].session@ {
                assert forall|k: int| #![trigger tail[k]] 0 <= k < tail.len()
                    implies tail[k].session@ != s2 by {
                    assert(tail[k] == es[k + 1]);
                }
                lemma_entry_absent_none(tail, s2);
            } else {
                assert(entry_deliverable(es, s2) == entry_deliverable(tail, s2));
            }
        }
        lemma_unique_count_one(tail, s, d);
        assert(deliverables_of(tail) =~= dv.drop_first());
    }
}

/// Fan-out reaches subscribers: a publish to `t` appends the message, exactly
/// once, to the mailbox of the deliverable a session holds on `t`, provided
/// no other session holds the same deliverable on `t`.
pub proof fn lemma_publish_delivers(
    pre: ChanMan,
    post: ChanMan,
    t: Seq<char>,
    m: Seq<char>,
    sess: Seq<char>,
    d: usize,
)
    requires
        pre.wf(),
        publish_fanout(pre, post, t, m),
        pre.sub_of(t, sess) == Some(d),
        forall|s2: Seq<char>| s2 != sess ==> #[trigger] pre.sub_of(t, s2) != Some(d),
        pre.mailbox_of(d) is Some,
    ensures
        post.mailbox_of(d) matches Some(q2) && pre.mailbox_of(d) matches Some(q) && q2 == q.push(
            m,
        ),
{
    let es = topic_entries(pre.topics@, t);
    lemma_entries_distinct(pre.topics@, t);
    assert forall|s2: Seq<char>| s2 != sess implies #[trigger] entry_deliverable(es, s2)
        != Some(d) by {
        assert(pre.sub_of(t, s2) == entry_deliverable(es, s2));
    }
    lemma_unique_count_one(es, sess, d);
    let q = pre.mailbox_of(d)->Some_0;
    assert(q + repeated(m, 1) =~= q.push(m));
}

/// Isolation: a publish to `t` leaves the mailbox of a deliverable that no
/// session holds on `t` unchanged — the mailbox of a session that never
/// subscribed, that unsubscribed, or that subscribed only after the publish
/// took its snapshot.
pub proof fn lemma_publish_spares(
    pre: ChanMan,
    post: ChanMan,
    t: Seq<char>,
    m: Seq<char>,
    d: usize,
)
    requires
        pre.wf(),
        publish_fanout(pre, post, t, m),
        forall|s2: Seq<char>| #![auto] pre.sub_of(t, s2) != Some(d),
    ensures
        post.mailbox_of(d) == pre.mailbox_of(d),
{
    lemma_entries_distinct(pre.topics@, t);
    assert forall|s2: Seq<char>| #![auto]
        entry_deliverable(topic_entries(pre.topics@, t), s2) != Some(d) by {
        assert(pre.sub_of(t, s2) == entry_deliverable(topic_entries(pre.topics@, t), s2));
    }
    lemma_absent_count_zero(topic_entries(pre.topics@, t), d);
    if pre.mailbox_of(d) is Some {
        let q = pre.mailbox_of(d)->Some_0;
        assert(q + repeated(m, 0) =~= q);
    }
}

/// Replacement, not duplication: when a session subscribes to `t` twice, a
/// later publish delivers only through the latest deliverable; the earlier
/// one receives nothing (no other session holding either deliverable).
pub proof fn lemma_replacement_not_duplication(
    s0: ChanMan,
    s1: ChanMan,
    s2: ChanMan,
    s3: ChanMan,
    t: Seq<char>,
    sess: Seq<char>,
    m: Seq<char>,
    d1: usize,
    d2: usize,
)
    requires
        s2.wf(),
        subscribe_updated(s0, s1, t, sess, d1),
        subscribe_updated(s1, s2, t, sess, d2),
        publish_fanout(s2, s3, t, m),
        d1 != d2,
        forall|s: Seq<char>| s != sess ==> #[trigger] s0.sub_of(t, s) != Some(d1),
        forall|s: Seq<char>| s != sess ==> #[trigger] s0.sub_of(t, s) != Some(d2),
        s2.mailbox_of(d2) is Some,
    ensures
        s3.mailbox_of(d1) == s2.mailbox_of(d1),
        s3.mailbox_of(d2) matches Some(q2) && s2.mailbox_of(d2) matches Some(q) && q2 == q.push(
            m,
        ),
{
    assert forall|s: Seq<char>| #![auto] s2.sub_of(t, s) != Some(d1) by {
        if s == sess {
            assert(s2.sub_of(t, s) == Some(d2));
        }
    }
    lemma_publish_spares(s2, s3, t, m, d1);
    assert(s2.sub_of(t, sess) == Some(d2));
    assert forall|s: Seq<char>| s != sess implies #[trigger] s2.sub_of(t, s) != Some(d2) by {
        assert(s2.sub_of(t, s) == s0.sub_of(t, s));
    }
    lemma_publish_delivers(s2, s3, t, m, sess, d2);
}

/// Unsubscribing silences a session: after `unsubscribe` of (`t`, `sess`), a
/// publish to `t` delivers nothing to the deliverable `sess` held — whether
/// or not it was ever subscribed — provided no other session holds that
/// deliverable on `t`.
pub proof fn lemma_unsubscribe_silences(
    s0: ChanMan,
    s1: ChanMan,
    s2: ChanMan,
    t: Seq<char>,
    sess: Seq<char>,
    m: Seq<char>,
    d: usize,
)
    requires
        s1.wf(),
        unsubscribe_updated(s0, s1, t, sess),
        publish_fanout(s1, s2, t, m),
        forall|s: Seq<char>| s != sess ==> #[trigger] s0.sub_of(t, s) != Some(d),
    ensures
        s2.mailbox_of(d) == s1.mailbox_of(d),
{
    assert forall|s: Seq<char>| #![auto] s1.sub_of(t, s) != Some(d) by {
        if s != sess {
            assert(s1.sub_of(t, s) == s0.sub_of(t, s));
        }
    }
    lemma_publish_spares(s1, s2, t, m, d);
}

/// A publish to a topic with no subscribers succeeds with no observable
/// effect: every subscription and every mailbox reads as before.
pub proof fn lemma_publish_without_subscribers(
    pre: ChanMan,
    post: ChanMan,
    t: Seq<char>,
    m: Seq<char>,
)
    requires
        pre.wf(),
        publish_fanout(pre, post, t, m),
        forall|s: Seq<char>| #![auto] pre.sub_of(t, s) is None,
    ensures
        forall|d: usize| #![auto] post.mailbox_of(d) == pre.mailbox_of(d),
        forall|t2: Seq<char>, s2: Seq<char>| #![auto] post.sub_of(t2, s2) == pre.sub_of(t2, s2),
        post.mailbox_count() == pre.mailbox_count(),
{
    assert forall|d: usize| #![auto] post.mailbox_of(d) == pre.mailbox_of(d) by {
        lemma_publish_spares(pre, post, t, m, d);
    }
}

/// Snapshot semantics: a publish fans out to the subscriber set at the
/// instant of its call, so a deliverable subscribed only after that instant
/// receives nothing from it.
pub proof fn lemma_late_subscriber_misses(
    s0: ChanMan,
    s1: ChanMan,
    s2: ChanMan,
    t: Seq<char>,
    sess: Seq<char>,
    m: Seq<char>,
    d: usize,
)
    requires
        s0.wf(),
        publish_fanout(s0, s1, t, m),
        subscribe_updated(s1, s2, t, sess, d),
        forall|s: Seq<char>| #![auto] s0.sub_of(t, s) != Some(d),
    ensures
        s2.mailbox_of(d) == s0.mailbox_of(d),
{
    lemma_publish_spares(s0, s1, t, m, d);
}

} // verus!
