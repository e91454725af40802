//! The pub/sub relay: subscribers hold per-subscriber FIFO queues and a set
//! of topics; publishing appends the message, in publish order, to the queue
//! of every subscriber of its topic. Subscribers created over a network
//! session are recorded under it, and dropping the session removes them.
use vstd::prelude::*;


verus! {

/// One published message: its topic and payload.
#[derive(Debug)]
pub struct Message {
    pub topic: String,
    pub payload: Vec<u8>,
}

impl View for Message {
    type V = (Seq<char>, Seq<u8>);

    open spec fn view(&self) -> (Seq<char>, Seq<u8>) {
        (self.topic@, self.payload@)
    }
}

/// The mathematical model of one subscriber.
pub struct SubscriberV {
    pub id: u64,
    pub session_id: Option<u64>,
    pub topics: Set<Seq<char>>,
    pub queue: Seq<(Seq<char>, Seq<u8>)>,
}

/// One subscriber: its id, the session it belongs to (if any), the topics it
/// follows, and its queue of undelivered messages, oldest first.
#[derive(Debug)]
pub struct Subscriber {
    pub id: u64,
    pub session_id: Option<u64>,
    topics: Vec<String>,
    queue: Vec<Message>,
}

impl View for Subscriber {
    type V = SubscriberV;

    closed spec fn view(&self) -> SubscriberV {
        SubscriberV {
            id: self.id,
            session_id: self.session_id,
            topics: Set::new(
                |t: Seq<char>| exists|i: int| 0 <= i < self.topics@.len()
                    && self.topics@[i]@ == t,
            ),
            queue: Seq::new(self.queue@.len(), |i: int| self.queue@[i]@),
        }
    }
}

/// Whether a subscriber's topic list holds no topic twice.
pub open spec fn distinct_topics(s: Subscriber) -> bool {
    forall|a: int, b: int| 0 <= a < b < s.spec_topics().len()
        ==> s.spec_topics()[a]@ != s.spec_topics()[b]@
}

impl Subscriber {
    /// The raw topic list.
    pub closed spec fn spec_topics(&self) -> Seq<String> {
        self.topics@
    }


    /// Whether this subscriber follows `topic`.
    pub fn is_subscribed_to(&self, topic: &String) -> (r: bool)
        ensures r == self@.topics.contains(topic@),
    {
        let mut i: usize = 0;
        while i < self.topics.len()
            invariant
                0 <= i <= self.topics@.len(),
                forall|j: int| 0 <= j < i ==> self.topics@[j]@ != topic@,
            decreases self.topics@.len() - i,
        {
            if self.topics[i] == *topic {
                return true;
            }
            i = i + 1;
        }
        false
    }
}

/// What one publish leaves behind: every subscriber of the topic has the
/// message at the back of its queue; every other subscriber is untouched.
pub open spec fn publish_spec(
    subs: Seq<SubscriberV>,
    topic: Seq<char>,
    payload: Seq<u8>,
) -> Seq<SubscriberV> {
    Seq::new(
        subs.len(),
        |i: int| SubscriberV {
            queue: if subs[i].topics.contains(topic) {
                subs[i].queue.push((topic, payload))
            } else {
                subs[i].queue
            },
            ..subs[i]
        },
    )
}

/// A sequence of publishes to one topic, oldest first.
pub open spec fn publish_all_spec(
    subs: Seq<SubscriberV>,
    topic: Seq<char>,
    payloads: Seq<Seq<u8>>,
) -> Seq<SubscriberV>
    decreases payloads.len(),
{
    if payloads.len() == 0 {
        subs
    } else {
        publish_spec(publish_all_spec(subs, topic, payloads.drop_last()), topic, payloads.last())
    }
}

/// The messages `payloads` delivers on `topic`, in order.
pub open spec fn topic_messages(topic: Seq<char>, payloads: Seq<Seq<u8>>) -> Seq<
    (Seq<char>, Seq<u8>),
> {
    Seq::new(payloads.len(), |i: int| (topic, payloads[i]))
}

/// The subscriber fan-out law: one publisher publishing `payloads` to a topic
/// appends exactly those messages, in publish order, to the queue of every
/// subscriber subscribed throughout, and leaves the queue of every other
/// subscriber untouched — so a subscriber that unsubscribed earlier receives
/// none of them.
pub proof fn lemma_subscriber_fan_out(
    subs: Seq<SubscriberV>,
    topic: Seq<char>,
    payloads: Seq<Seq<u8>>,
    i: int,
)
    requires 0 <= i < subs.len(),
    ensures
        publish_all_spec(subs, topic, payloads).len() == subs.len(),
        publish_all_spec(subs, topic, payloads)[i].id == subs[i].id,
        publish_all_spec(subs, topic, payloads)[i].session_id == subs[i].session_id,
        publish_all_spec(subs, topic, payloads)[i].topics == subs[i].topics,
        subs[i].topics.contains(topic) ==> publish_all_spec(subs, topic, payloads)[i].queue
            =~= subs[i].queue + topic_messages(topic, payloads),
        !subs[i].topics.contains(topic) ==> publish_all_spec(subs, topic, payloads)[i].queue
            == subs[i].queue,
    decreases payloads.len(),
{
    if payloads.len() > 0 {
        lemma_subscriber_fan_out(subs, topic, payloads.drop_last(), i);
        let prev = publish_all_spec(subs, topic, payloads.drop_last());
        if subs[i].topics.contains(topic) {
            assert(prev[i].queue =~= subs[i].queue + topic_messages(topic, payloads.drop_last()));
            assert(publish_all_spec(subs, topic, payloads)[i].queue =~= prev[i].queue.push(
                (topic, payloads.last()),
            ));
            assert(subs[i].queue + topic_messages(topic, payloads) =~= (subs[i].queue
                + topic_messages(topic, payloads.drop_last())).push((topic, payloads.last())));
        }
    }
}

/// The subscribers of `s` that do not belong to session `sid`, in order.
pub open spec fn without_session(s: Seq<SubscriberV>, sid: u64) -> Seq<SubscriberV>
    decreases s.len(),
{
    if s.len() == 0 {
        s
    } else if s.first().session_id == Some(sid) {
        without_session(s.drop_first(), sid)
    } else {
        seq![s.first()] + without_session(s.drop_first(), sid)
    }
}

/// Purging a session removes exactly its subscribers: none of the remainder
/// belongs to the session, and every other subscriber stays.
pub proof fn lemma_without_session_members(s: Seq<SubscriberV>, sid: u64)
    ensures
        forall|j: int| 0 <= j < without_session(s, sid).len()
            ==> #[trigger] without_session(s, sid)[j].session_id != Some(sid),
        forall|i: int| 0 <= i < s.len() && s[i].session_id != Some(sid)
            ==> without_session(s, sid).contains(#[trigger] s[i]),
    decreases s.len(),
{
    if s.len() > 0 {
        lemma_without_session_members(s.drop_first(), sid);
        let r = without_session(s, sid);
        let rt = without_session(s.drop_first(), sid);
        assert forall|i: int| 0 <= i < s.len() && s[i].session_id != Some(sid) implies
            r.contains(#[trigger] s[i]) by {
            if i == 0 {
                assert(r[0] == s[0]);
            } else {
                assert(s.drop_first()[i - 1] == s[i]);
                assert(rt.contains(s[i]));
                let w = choose|w: int| 0 <= w < rt.len() && rt[w] == s[i];
                if s.first().session_id == Some(sid) {
                    assert(r[w] == s[i]);
                } else {
                    assert(r[w + 1] == s[i]);
                }
            }
        }
    }
}

/// The topic-indexed relay of one storage instance.
#[derive(Debug)]
pub struct Relay {
    subscribers: Vec<Subscriber>,
    last_id: u64,
}

impl View for Relay {
    type V = Seq<SubscriberV>;

    closed spec fn view(&self) -> Seq<SubscriberV> {
        Seq::new(self.subscribers@.len(), |i: int| self.subscribers@[i]@)
    }
}

impl Relay {
    /// The last subscriber id handed out; ids increase monotonically.
    pub closed spec fn spec_last_id(&self) -> u64 {
        self.last_id
    }

    /// Well-formed: subscriber ids are distinct, none exceeds the counter,
    /// and no subscriber lists a topic twice.
    pub closed spec fn wf(&self) -> bool {
        &&& forall|i: int, j: int| 0 <= i < j < self@.len() ==> self@[i].id != self@[j].id
        &&& forall|i: int| 0 <= i < self@.len() ==> #[trigger] self@[i].id <= self.last_id
        &&& forall|i: int| 0 <= i < self.subscribers@.len()
            ==> #[trigger] distinct_topics(self.subscribers@[i])
    }

    /// An empty relay.
    pub fn new() -> (r: Relay)
        ensures
            r.wf(),
            r@ == Seq::<SubscriberV>::empty(),
            r.spec_last_id() == 0,
    {
        let r = Relay { subscribers: Vec::new(), last_id: 0 };
        proof { assert(r@ =~= Seq::<SubscriberV>::empty()); }
        r
    }

    /// Creates a subscriber with a fresh id, following no topics, bound to
    /// `session_id` when the caller works over a network session.
    pub fn create_subscriber(&mut self, session_id: Option<u64>) -> (r: u64)
        requires
            old(self).wf(),
            old(self).spec_last_id() < u64::MAX,
        ensures
            final(self).wf(),
            r == old(self).spec_last_id() + 1,
            final(self).spec_last_id() == r,
            final(self)@ =~= old(self)@.push(
                SubscriberV {
                    id: r,
                    session_id: session_id,
                    topics: Set::<Seq<char>>::empty(),
                    queue: Seq::<(Seq<char>, Seq<u8>)>::empty(),
                },
            ),
            forall|i: int| 0 <= i < old(self)@.len() ==> old(self)@[i].id != r,
    {
        self.last_id = self.last_id + 1;
        let id = self.last_id;
        let sub = Subscriber { id, session_id, topics: Vec::new(), queue: Vec::new() };
        proof {
            assert(sub@.topics =~= Set::<Seq<char>>::empty());
            assert(sub@.queue =~= Seq::<(Seq<char>, Seq<u8>)>::empty());
        }
        self.subscribers.push(sub);
        proof {
            assert(self@ =~= old(self)@.push(sub@));
        }
        id
    }

    /// The index of the subscriber with `id`, if registered.
    fn position_of(&self, id: u64) -> (r: Option<usize>)
        ensures
            match r {
                Some(i) => i < self@.len() && self@[i as int].id == id,
                None => forall|j: int| 0 <= j < self@.len() ==> self@[j].id != id,
            },
    {
        let mut i: usize = 0;
        while i < self.subscribers.len()
            invariant
                0 <= i <= self.subscribers@.len(),
                self@.len() == self.subscribers@.len(),
                forall|j: int| 0 <= j < self@.len() ==> self@[j] == self.subscribers@[j]@,
                forall|j: int| 0 <= j < i ==> self@[j].id != id,
            decreases self.subscribers@.len() - i,
        {
            if self.subscribers[i].id == id {
                return Some(i);
            }
            i = i + 1;
        }
        None
    }

    /// Subscribes the subscriber to `topic`; subscribing twice is the same as
    /// subscribing once. An unknown id changes nothing.
    pub fn subscribe_to(&mut self, id: u64, topic: String)
        requires old(self).wf(),
        ensures
            final(self).wf(),
            final(self)@.len() == old(self)@.len(),
            final(self).spec_last_id() == old(self).spec_last_id(),
            forall|j: int| 0 <= j < old(self)@.len() && old(self)@[j].id != id
                ==> final(self)@[j] == old(self)@[j],
            forall|j: int| 0 <= j < old(self)@.len() && old(self)@[j].id == id
                ==> final(self)@[j] == (SubscriberV {
                    topics: old(self)@[j].topics.insert(topic@),
                    ..old(self)@[j]
                }),
    {
        let ghost before = self@;
        let ghost old_vec = self.subscribers@;
        match self.position_of(id) {
            Some(i) => {
                let mut s = self.subscribers.remove(i);
                let ghost s_before = s;
                proof { assert(distinct_topics(old_vec[i as int])); }
                if !s.is_subscribed_to(&topic) {
                    let ghost old_topics = s.topics@;
                    s.topics.push(topic);
                    proof {
                        assert(s@.queue == s_before@.queue);
                        assert(s@.id == s_before@.id && s@.session_id == s_before@.session_id);
                        assert forall|t: Seq<char>| s@.topics.contains(t)
                            <==> s_before@.topics.insert(topic@).contains(t) by {
                            if s@.topics.contains(t) {
                                let w = choose|w: int| 0 <= w < s.topics@.len()
                                    && s.topics@[w]@ == t;
                                if w < old_topics.len() {
                                    assert(s_before.spec_topics()[w]@ == t);
                                }
                            }
                            if s_before@.topics.contains(t) {
                                let w = choose|w: int| 0 <= w < old_topics.len()
                                    && old_topics[w]@ == t;
                                assert(s.topics@[w]@ == t);
                            }
                            if t == topic@ {
                                assert(s.topics@[old_topics.len() as int]@ == t);
                            }
                        }
                        assert(s@.topics =~= s_before@.topics.insert(topic@));
                        assert(s@ == SubscriberV {
                            topics: s_before@.topics.insert(topic@),
                            ..s_before@
                        });
                        assert(old_vec[i as int].spec_topics() == old_topics);
                        assert forall|a: int, b: int| 0 <= a < b < s.spec_topics().len() implies
                            s.spec_topics()[a]@ != s.spec_topics()[b]@ by {
                            if b < old_topics.len() {
                                assert(s.spec_topics()[a] == old_topics[a]);
                                assert(s.spec_topics()[b] == old_topics[b]);
                                assert(old_topics[a]@ != old_topics[b]@);
                            } else {
                                assert(s.spec_topics()[a] == old_topics[a]);
                                assert(s.spec_topics()[b]@ == topic@);
                                if old_topics[a]@ == topic@ {
                                    assert(s_before.spec_topics()[a]@ == topic@);
                                    assert(s_before@.topics.contains(topic@));
                                }
                            }
                        }
                        assert(distinct_topics(s));
                    }
                } else {
                    proof {
                        assert(s_before@.topics.insert(topic@) =~= s_before@.topics);
                        assert(s@ == SubscriberV {
                            topics: s_before@.topics.insert(topic@),
                            ..s_before@
                        });
                    }
                }
                self.subscribers.insert(i, s);
                proof {
                    lemma_replace_one(old_vec, self.subscribers@, i as int, s);
                    assert(s_before == old_vec[i as int]);
                    assert(before[i as int] == s_before@);
                    assert(self@[i as int] == s@);
                    assert forall|j: int| 0 <= j < before.len() && j != i implies
                        self@[j] == before[j] by {
                        assert(self.subscribers@[j] == old_vec[j]);
                    }
                    assert(s@.id == before[i as int].id);
                    assert forall|a: int, b: int| 0 <= a < b < self@.len() implies
                        self@[a].id != self@[b].id by {
                        assert(self@[a].id == before[a].id);
                        assert(self@[b].id == before[b].id);
                    }
                    assert forall|j: int| 0 <= j < self@.len() implies
                        #[trigger] self@[j].id <= self.last_id by {
                        assert(self@[j].id == before[j].id);
                    }
                    assert forall|j: int| 0 <= j < self.subscribers@.len() implies
                        #[trigger] distinct_topics(self.subscribers@[j]) by {
                        if j != i {
                            assert(self.subscribers@[j] == old_vec[j]);
                            assert(distinct_topics(old_vec[j]));
                        } else {
                            assert(self.subscribers@[j] == s);
                        }
                    }
                }
            },
            None => {},
        }
    }

    /// Unsubscribes the subscriber from `topic`; unsubscribing twice is the
    /// same as once. An unknown id changes nothing.
    pub fn unsubscribe_from(&mut self, id: u64, topic: &String)
        requires old(self).wf(),
        ensures
            final(self).wf(),
            final(self)@.len() == old(self)@.len(),
            final(self).spec_last_id() == old(self).spec_last_id(),
            forall|j: int| 0 <= j < old(self)@.len() && old(self)@[j].id != id
                ==> final(self)@[j] == old(self)@[j],
            forall|j: int| 0 <= j < old(self)@.len() && old(self)@[j].id == id
                ==> final(self)@[j] == (SubscriberV {
                    topics: old(self)@[j].topics.remove(topic@),
                    ..old(self)@[j]
                }),
    {
        let ghost before = self@;
        let ghost old_vec = self.subscribers@;
        match self.position_of(id) {
            Some(i) => {
                let mut s = self.subscribers.remove(i);
                let ghost s_before = s;
                let mut t: usize = 0;
                let mut found: Option<usize> = None;
                while t < s.topics.len() && found.is_none()
                    invariant
                        0 <= t <= s.topics@.len(),
                        s == s_before,
                        found is None ==> forall|j: int| 0 <= j < t
                            ==> s.topics@[j]@ != topic@,
                        match found {
                            Some(w) => w < s.topics@.len() && s.topics@[w as int]@ == topic@
                                && forall|j: int| 0 <= j < w ==> s.topics@[j]@ != topic@,
                            None => true,
                        },
                    decreases s.topics@.len() - t, (if found is None { 1int } else { 0int }),
                {
                    if s.topics[t] == *topic {
                        found = Some(t);
                    } else {
                        t = t + 1;
                    }
                }
                match found {
                    Some(w) => {
                        let ghost old_topics = s.topics@;
                        s.topics.remove(w);
                        proof {
                            assert(s@.queue == s_before@.queue);
                            assert(distinct_topics(old_vec[i as int]));
                            assert(old_vec[i as int].spec_topics() == old_topics);
                            old_topics.remove_ensures(w as int);
                            assert(s.topics@ == old_topics.remove(w as int));
                            assert forall|x: Seq<char>| s@.topics.contains(x)
                                <==> s_before@.topics.remove(topic@).contains(x) by {
                                if s@.topics.contains(x) {
                                    let v = choose|v: int| 0 <= v < s.topics@.len()
                                        && s.topics@[v]@ == x;
                                    if v < w {
                                        assert(old_topics[v]@ == x);
                                        assert(old_topics[v]@ != old_topics[w as int]@);
                                    } else {
                                        assert(old_topics[v + 1]@ == x);
                                        assert(old_topics[v + 1]@ != old_topics[w as int]@);
                                    }
                                }
                                if s_before@.topics.remove(topic@).contains(x) {
                                    let v = choose|v: int| 0 <= v < old_topics.len()
                                        && old_topics[v]@ == x;
                                    if v < w {
                                        assert(s.topics@[v]@ == x);
                                    } else {
                                        assert(v != w);
                                        assert(s.topics@[v - 1]@ == x);
                                    }
                                }
                            }
                            assert(s@.topics =~= s_before@.topics.remove(topic@));
                            assert(s@ == SubscriberV {
                                topics: s_before@.topics.remove(topic@),
                                ..s_before@
                            });
                            assert forall|a: int, b: int| 0 <= a < b < s.spec_topics().len()
                                implies s.spec_topics()[a]@ != s.spec_topics()[b]@ by {
                                if a < w {
                                    assert(s.spec_topics()[a] == old_topics[a]);
                                } else {
                                    assert(s.spec_topics()[a] == old_topics[a + 1]);
                                }
                                if b < w {
                                    assert(s.spec_topics()[b] == old_topics[b]);
                                } else {
                                    assert(s.spec_topics()[b] == old_topics[b + 1]);
                                }
                            }
                            assert(distinct_topics(s));
                        }
                    },
                    None => {
                        proof {
                            assert(!s_before@.topics.contains(topic@));
                            assert(s_before@.topics.remove(topic@) =~= s_before@.topics);
                        }
                    },
                }
                self.subscribers.insert(i, s);
                proof {
                    lemma_replace_one(old_vec, self.subscribers@, i as int, s);
                    assert(s_before == old_vec[i as int]);
                    assert(before[i as int] == s_before@);
                    assert(self@[i as int] == s@);
                    assert forall|j: int| 0 <= j < before.len() && j != i implies
                        self@[j] == before[j] by {
                        assert(self.subscribers@[j] == old_vec[j]);
                    }
                    assert(s@.id == before[i as int].id);
                    assert forall|a: int, b: int| 0 <= a < b < self@.len() implies
                        self@[a].id != self@[b].id by {
                        assert(self@[a].id == before[a].id);
                        assert(self@[b].id == before[b].id);
                    }
                    assert forall|j: int| 0 <= j < self@.len() implies
                        #[trigger] self@[j].id <= self.last_id by {
                        assert(self@[j].id == before[j].id);
                    }
                    assert forall|j: int| 0 <= j < self.subscribers@.len() implies
                        #[trigger] distinct_topics(self.subscribers@[j]) by {
                        if j != i {
                            assert(self.subscribers@[j] == old_vec[j]);
                            assert(distinct_topics(old_vec[j]));
                        } else {
                            assert(self.subscribers@[j] == s);
                        }
                    }
                }
            },
            None => {},
        }
    }

    /// Publishes `payload` to `topic`: the message joins the queue of every
    /// subscriber of the topic, after everything published to them before.
    pub fn publish(&mut self, topic: &String, payload: &[u8])
        requires old(self).wf(),
        ensures
            final(self).wf(),
            final(self).spec_last_id() == old(self).spec_last_id(),
            final(self)@ =~= publish_spec(old(self)@, topic@, payload@),
    {
        let ghost orig = self@;
        let mut updated: Vec<Subscriber> = Vec::new();
        while self.subscribers.len() > 0
            invariant
                forall|i: int| 0 <= i < updated@.len() ==> #[trigger] updated@[i]@
                    == publish_spec(orig, topic@, payload@)[i],
                forall|i: int| 0 <= i < updated@.len() ==> #[trigger] distinct_topics(
                    updated@[i],
                ),
                updated@.len() + self.subscribers@.len() == orig.len(),
                forall|i: int| 0 <= i < self.subscribers@.len()
                    ==> #[trigger] self.subscribers@[i]@ == orig[updated@.len() + i],
                forall|i: int| 0 <= i < self.subscribers@.len() ==> #[trigger] distinct_topics(
                    self.subscribers@[i],
                ),
                self.last_id == old(self).spec_last_id(),
            decreases self.subscribers@.len(),
        {
            let ghost k = updated@.len() as int;
            let mut s = self.subscribers.remove(0);
            let ghost s_before = s;
            proof {
                assert(s_before@ == orig[k]);
                assert(distinct_topics(s_before));
            }
            if s.is_subscribed_to(topic) {
                let message = Message {
                    topic: topic.clone(),
                    payload: crate::codec::bytes_of(payload),
                };
                let ghost old_queue = s.queue@;
                s.queue.push(message);
                proof {
                    assert(s@.topics =~= s_before@.topics);
                    assert(s@.queue =~= s_before@.queue.push((topic@, payload@)));
                    assert(s@ == SubscriberV {
                        queue: s_before@.queue.push((topic@, payload@)),
                        ..s_before@
                    });
                    assert(s.spec_topics() == s_before.spec_topics());
                    assert(distinct_topics(s));
                    assert(s@ == publish_spec(orig, topic@, payload@)[k]);
                }
            } else {
                proof {
                    assert(s == s_before);
                    assert(publish_spec(orig, topic@, payload@)[k] == s_before@);
                }
            }
            updated.push(s);
        }
        self.subscribers = updated;
        proof {
            assert(self@ =~= publish_spec(orig, topic@, payload@));
            assert forall|a: int, b: int| 0 <= a < b < self@.len() implies
                self@[a].id != self@[b].id by {
                assert(self@[a].id == orig[a].id);
                assert(self@[b].id == orig[b].id);
            }
            assert forall|j: int| 0 <= j < self@.len() implies
                #[trigger] self@[j].id <= self.last_id by {
                assert(self@[j].id == orig[j].id);
                assert(orig[j].id <= old(self).spec_last_id());
            }
        }
    }

    /// Hands out everything queued for the subscriber, oldest first, leaving
    /// its queue empty. An unknown id receives nothing.
    pub fn take_messages(&mut self, id: u64) -> (r: Vec<Message>)
        requires old(self).wf(),
        ensures
            final(self).wf(),
            final(self)@.len() == old(self)@.len(),
            final(self).spec_last_id() == old(self).spec_last_id(),
            forall|j: int| 0 <= j < old(self)@.len() && old(self)@[j].id != id
                ==> final(self)@[j] == old(self)@[j],
            forall|j: int| 0 <= j < old(self)@.len() && old(self)@[j].id == id
                ==> (Seq::new(r@.len() as nat, |m: int| r@[m]@) == old(self)@[j].queue
                    && final(self)@[j] == (SubscriberV {
                    queue: Seq::<(Seq<char>, Seq<u8>)>::empty(),
                    ..old(self)@[j]
                })),
            forall|j: int| 0 <= j < old(self)@.len() ==> final(self)@[j].id == old(self)@[j].id,
    {
        let ghost before = self@;
        let ghost old_vec = self.subscribers@;
        match self.position_of(id) {
            Some(i) => {
                let mut s = self.subscribers.remove(i);
                let ghost s_before = s;
                let mut queue: Vec<Message> = Vec::new();
                core::mem::swap(&mut queue, &mut s.queue);
                proof {
                    assert(s@.topics =~= s_before@.topics);
                    assert(s@.queue =~= Seq::<(Seq<char>, Seq<u8>)>::empty());
                    assert(s@ == SubscriberV {
                        queue: Seq::<(Seq<char>, Seq<u8>)>::empty(),
                        ..s_before@
                    });
                    assert(Seq::new(queue@.len() as nat, |m: int| queue@[m]@)
                        =~= s_before@.queue);
                    assert(distinct_topics(old_vec[i as int]));
                    assert(s.spec_topics() == s_before.spec_topics());
                    assert(distinct_topics(s));
                }
                self.subscribers.insert(i, s);
                proof {
                    lemma_replace_one(old_vec, self.subscribers@, i as int, s);
                    assert(s_before == old_vec[i as int]);
                    assert(before[i as int] == s_before@);
                    assert(self@[i as int] == s@);
                    assert forall|j: int| 0 <= j < before.len() && j != i implies
                        self@[j] == before[j] by {
                        assert(self.subscribers@[j] == old_vec[j]);
                    }
                    assert(s@.id == before[i as int].id);
                    assert forall|a: int, b: int| 0 <= a < b < self@.len() implies
                        self@[a].id != self@[b].id by {
                        assert(self@[a].id == before[a].id);
                        assert(self@[b].id == before[b].id);
                    }
                    assert forall|j: int| 0 <= j < self@.len() implies
                        #[trigger] self@[j].id <= self.last_id by {
                        assert(self@[j].id == before[j].id);
                    }
                    assert forall|j: int| 0 <= j < self.subscribers@.len() implies
                        #[trigger] distinct_topics(self.subscribers@[j]) by {
                        if j != i {
                            assert(self.subscribers@[j] == old_vec[j]);
                            assert(distinct_topics(old_vec[j]));
                        } else {
                            assert(self.subscribers@[j] == s);
                        }
                    }
                }
                queue
            },
            None => Vec::new(),
        }
    }

    /// Removes the subscriber with `id`; an unknown id changes nothing.
    pub fn unregister_subscriber(&mut self, id: u64)
        requires old(self).wf(),
        ensures
            final(self).wf(),
            final(self).spec_last_id() == old(self).spec_last_id(),
            (forall|j: int| 0 <= j < old(self)@.len() ==> old(self)@[j].id != id)
                ==> final(self)@ == old(self)@,
            forall|i: int| 0 <= i < old(self)@.len() && old(self)@[i].id == id
                ==> final(self)@ =~= old(self)@.remove(i),
    {
        let ghost before = self@;
        match self.position_of(id) {
            Some(i) => {
                self.subscribers.remove(i);
                proof {
                    assert(self@ =~= before.remove(i as int));
                    assert forall|w: int| 0 <= w < before.len() && before[w].id == id implies
                        self@ =~= before.remove(w) by {
                        if w != i {
                            assert(before[w].id != before[i as int].id);
                        }
                    }
                }
            },
            None => {},
        }
    }

    /// Removes every subscriber of session `sid`: the session's drop cascades
    /// to its subscribers and to nothing else.
    pub fn purge_session(&mut self, sid: u64)
        requires old(self).wf(),
        ensures
            final(self).wf(),
            final(self).spec_last_id() == old(self).spec_last_id(),
            final(self)@ =~= without_session(old(self)@, sid),
    {
        let ghost orig = self@;
        let mut kept: Vec<Subscriber> = Vec::new();
        proof {
            assert(orig.skip(0) =~= orig);
            assert(Seq::new(kept@.len() as nat, |i: int| kept@[i]@)
                =~= Seq::<SubscriberV>::empty());
            assert(Seq::new(kept@.len() as nat, |i: int| kept@[i]@) + without_session(orig, sid)
                =~= without_session(orig, sid));
            assert forall|a: int, b: int| 0 <= a < b < self.subscribers@.len() implies
                self.subscribers@[a]@.id != self.subscribers@[b]@.id by {
                assert(self.subscribers@[a]@ == orig[a]);
                assert(self.subscribers@[b]@ == orig[b]);
                assert(orig[a].id != orig[b].id);
            }
            assert forall|i: int| 0 <= i < self.subscribers@.len() implies
                #[trigger] self.subscribers@[i]@.id <= self.last_id by {
                assert(self.subscribers@[i]@ == orig[i]);
                assert(orig[i].id <= self.last_id);
            }
        }
        while self.subscribers.len() > 0
            invariant
                forall|i: int| 0 <= i < self.subscribers@.len()
                    ==> #[trigger] self.subscribers@[i]@
                        == orig[orig.len() - self.subscribers@.len() + i],
                self.subscribers@.len() <= orig.len(),
                Seq::new(kept@.len() as nat, |i: int| kept@[i]@) + without_session(
                    orig.skip(orig.len() - self.subscribers@.len() as int),
                    sid,
                ) =~= without_session(orig, sid),
                forall|i: int| 0 <= i < kept@.len() ==> #[trigger] distinct_topics(kept@[i]),
                forall|i: int| 0 <= i < self.subscribers@.len() ==> #[trigger] distinct_topics(
                    self.subscribers@[i],
                ),
                forall|a: int, b: int| 0 <= a < b < kept@.len() ==> kept@[a]@.id != kept@[b]@.id,
                forall|i: int| 0 <= i < kept@.len() ==> #[trigger] kept@[i]@.id <= self.last_id,
                forall|a: int, b: int| 0 <= a < kept@.len() && 0 <= b
                    < self.subscribers@.len() ==> kept@[a]@.id != self.subscribers@[b]@.id,
                forall|a: int, b: int| 0 <= a < b < self.subscribers@.len()
                    ==> self.subscribers@[a]@.id != self.subscribers@[b]@.id,
                forall|i: int| 0 <= i < self.subscribers@.len()
                    ==> #[trigger] self.subscribers@[i]@.id <= self.last_id,
                self.last_id == old(self).spec_last_id(),
            decreases self.subscribers@.len(),
        {
            let ghost remaining = orig.skip(orig.len() - self.subscribers@.len() as int);
            let s = self.subscribers.remove(0);
            proof {
                assert(remaining.first() == s@);
                assert(remaining.drop_first() =~= orig.skip(
                    orig.len() - self.subscribers@.len() as int,
                ));
            }
            let keep = match s.session_id {
                Some(session) => session != sid,
                None => true,
            };
            if keep {
                let ghost kept_views = Seq::new(kept@.len() as nat, |i: int| kept@[i]@);
                kept.push(s);
                proof {
                    assert(Seq::new(kept@.len() as nat, |i: int| kept@[i]@) =~= kept_views.push(
                        remaining.first(),
                    ));
                    assert(without_session(remaining, sid) =~= seq![remaining.first()]
                        + without_session(remaining.drop_first(), sid));
                    assert(kept_views.push(remaining.first()) + without_session(
                        remaining.drop_first(),
                        sid,
                    ) =~= kept_views + without_session(remaining, sid));
                }
            } else {
                proof {
                    assert(without_session(remaining, sid) == without_session(
                        remaining.drop_first(),
                        sid,
                    ));
                }
            }
        }
        self.subscribers = kept;
        proof {
            assert(orig.skip(orig.len() as int) =~= Seq::<SubscriberV>::empty());
            assert(without_session(Seq::<SubscriberV>::empty(), sid)
                =~= Seq::<SubscriberV>::empty());
            assert(self@ =~= without_session(orig, sid));
            lemma_without_session_members(orig, sid);
            assert forall|a: int, b: int| 0 <= a < b < self@.len() implies
                self@[a].id != self@[b].id by {
                lemma_without_session_distinct(orig, sid, self.last_id);
            }
            lemma_without_session_distinct(orig, sid, self.last_id);
        }
    }
}

/// Removing a slot and reinserting there replaces that slot alone.
proof fn lemma_replace_one(old_vec: Seq<Subscriber>, new_vec: Seq<Subscriber>, i: int, s: Subscriber)
    requires
        0 <= i < old_vec.len(),
        new_vec =~= old_vec.remove(i).insert(i, s),
    ensures
        new_vec.len() == old_vec.len(),
        new_vec[i] == s,
        forall|j: int| 0 <= j < old_vec.len() && j != i ==> new_vec[j] == old_vec[j],
{
    old_vec.remove_ensures(i);
    old_vec.remove(i).insert_ensures(i, s);
    assert forall|j: int| 0 <= j < old_vec.len() && j != i implies new_vec[j] == old_vec[j] by {
        if j < i {
            assert(old_vec.remove(i)[j] == old_vec[j]);
            assert(new_vec[j] == old_vec.remove(i)[j]);
        } else {
            assert(new_vec[(j - 1) + 1] == old_vec.remove(i)[j - 1]);
            assert(old_vec.remove(i)[j - 1] == old_vec[(j - 1) + 1]);
        }
    }
}

/// A purge keeps ids distinct and bounded, since the survivors all stood in
/// the original table.
proof fn lemma_without_session_distinct(s: Seq<SubscriberV>, sid: u64, bound: u64)
    requires
        forall|a: int, b: int| 0 <= a < b < s.len() ==> s[a].id != s[b].id,
        forall|i: int| 0 <= i < s.len() ==> #[trigger] s[i].id <= bound,
    ensures
        forall|a: int, b: int| 0 <= a < b < without_session(s, sid).len()
            ==> without_session(s, sid)[a].id != without_session(s, sid)[b].id,
        forall|i: int| 0 <= i < without_session(s, sid).len()
            ==> #[trigger] without_session(s, sid)[i].id <= bound,
    decreases s.len(),
{
    if s.len() > 0 {
        lemma_without_session_distinct(s.drop_first(), sid, bound);
        let r = without_session(s, sid);
        let rt = without_session(s.drop_first(), sid);
        lemma_without_session_ids(s.drop_first(), sid);
        if s.first().session_id != Some(sid) {
            assert forall|a: int, b: int| 0 <= a < b < r.len() implies r[a].id != r[b].id by {
                if a == 0 {
                    assert(r[b] == rt[b - 1]);
                    let w = choose|w: int| 0 <= w < s.drop_first().len()
                        && s.drop_first()[w] == rt[b - 1];
                    assert(s[w + 1] == r[b]);
                    assert(s[0].id != s[w + 1].id);
                } else {
                    assert(r[a] == rt[a - 1] && r[b] == rt[b - 1]);
                }
            }
            assert forall|i: int| 0 <= i < r.len() implies #[trigger] r[i].id <= bound by {
                if i > 0 {
                    assert(r[i] == rt[i - 1]);
                }
            }
        }
    }
}

/// Every survivor of a purge stood in the original table.
proof fn lemma_without_session_ids(s: Seq<SubscriberV>, sid: u64)
    ensures
        forall|j: int| 0 <= j < without_session(s, sid).len() ==> exists|i: int|
            0 <= i < s.len() && s[i] == #[trigger] without_session(s, sid)[j],
    decreases s.len(),
{
    if s.len() > 0 {
        lemma_without_session_ids(s.drop_first(), sid);
        let r = without_session(s, sid);
        let rt = without_session(s.drop_first(), sid);
        assert forall|j: int| 0 <= j < r.len() implies exists|i: int| 0 <= i < s.len()
            && s[i] == #[trigger] r[j] by {
            if s.first().session_id == Some(sid) {
                let w = choose|w: int| 0 <= w < s.drop_first().len() && s.drop_first()[w] == rt[j];
                assert(s[w + 1] == r[j]);
            } else {
                if j == 0 {
                    assert(s[0] == r[0]);
                } else {
                    let w = choose|w: int| 0 <= w < s.drop_first().len()
                        && s.drop_first()[w] == rt[j - 1];
                    assert(s[w + 1] == r[j]);
                }
            }
        }
    }
}

} // verus!
