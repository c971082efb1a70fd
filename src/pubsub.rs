//! The Plumtree engine: one `TopicState` per topic, addressed by topic id.

use vstd::prelude::*;
use crate::topic::{
    actions_view, cache_expired, cache_stored, eager_handled, eager_sends, fresh_view, ihave_handled,
    iwant_handled, moved_to_eager, moved_to_lazy, payload_view, pending_pushed, publish_header, result_view,
    retried, retry_requests, view_wf, Action, GossipMessage, PubSubAction, PubSubError, TopicState,
    TopicView, MAX_EAGER_DEGREE, MAX_IHAVE_BATCH_SIZE, MIN_EAGER_DEGREE,
};
use crate::cache::CachedView;
use crate::message_id::message_id_of;
use crate::types::{MessageHeader, MessageId, PeerId, TopicId};

verus! {

/// No topic has two states.
pub open spec fn topics_unique(s: Seq<TopicState>) -> bool {
    forall|i: int, j: int| 0 <= i < j < s.len() ==> s[i].view().topic != s[j].view().topic
}

/// The state of topic `t` in `s`, if there is one.
pub open spec fn find_state(s: Seq<TopicState>, t: TopicId) -> Option<TopicView> {
    if exists|i: int| 0 <= i < s.len() && (#[trigger] s[i].view()).topic == t {
        Some(s[choose|i: int| 0 <= i < s.len() && (#[trigger] s[i].view()).topic == t].view())
    } else {
        None
    }
}

proof fn lemma_state_at(s: Seq<TopicState>, i: int)
    requires
        topics_unique(s),
        0 <= i < s.len(),
    ensures
        find_state(s, s[i].view().topic) == Some(s[i].view()),
{
    let t = s[i].view().topic;
    assert(exists|k: int| 0 <= k < s.len() && (#[trigger] s[k].view()).topic == t);
    let k = choose|k: int| 0 <= k < s.len() && (#[trigger] s[k].view()).topic == t;
    if k != i {
        if k < i {
            assert(s[k].view().topic != s[i].view().topic);
        } else {
            assert(s[i].view().topic != s[k].view().topic);
        }
    }
}

proof fn lemma_state_update(s: Seq<TopicState>, i: int, st: TopicState)
    requires
        topics_unique(s),
        0 <= i < s.len(),
        st.view().topic == s[i].view().topic,
    ensures
        topics_unique(s.update(i, st)),
        forall|t: TopicId| #[trigger] find_state(s.update(i, st), t) == if t == st.view().topic {
            Some(st.view())
        } else {
            find_state(s, t)
        },
{
    let u = s.update(i, st);
    assert forall|a: int, b: int| 0 <= a < b < u.len() implies u[a].view().topic != u[b].view().topic by {
        assert(s[a].view().topic != s[b].view().topic);
    }
    lemma_state_at(u, i);
    assert forall|t: TopicId| #[trigger] find_state(u, t) == if t == st.view().topic {
        Some(st.view())
    } else {
        find_state(s, t)
    } by {
        if t != st.view().topic {
            if exists|k: int| 0 <= k < s.len() && (#[trigger] s[k].view()).topic == t {
                let k = choose|k: int| 0 <= k < s.len() && (#[trigger] s[k].view()).topic == t;
                assert(k != i);
                assert(u[k] == s[k]);
                lemma_state_at(s, k);
                lemma_state_at(u, k);
            }
            if exists|k: int| 0 <= k < u.len() && (#[trigger] u[k].view()).topic == t {
                let k = choose|k: int| 0 <= k < u.len() && (#[trigger] u[k].view()).topic == t;
                assert(k != i);
                assert(u[k] == s[k]);
            }
        }
    }
}

proof fn lemma_state_push(s: Seq<TopicState>, st: TopicState)
    requires
        topics_unique(s),
        find_state(s, st.view().topic) is None,
    ensures
        topics_unique(s.push(st)),
        forall|t: TopicId| #[trigger] find_state(s.push(st), t) == if t == st.view().topic {
            Some(st.view())
        } else {
            find_state(s, t)
        },
{
    let u = s.push(st);
    assert forall|a: int, b: int| 0 <= a < b < u.len() implies u[a].view().topic != u[b].view().topic by {
        if b == s.len() {
            assert(u[a] == s[a]);
            if s[a].view().topic == st.view().topic {
                assert(exists|k: int| 0 <= k < s.len() && (#[trigger] s[k].view()).topic == st.view().topic);
            }
        } else {
            assert(s[a].view().topic != s[b].view().topic);
        }
    }
    lemma_state_at(u, s.len() as int);
    assert forall|t: TopicId| #[trigger] find_state(u, t) == if t == st.view().topic {
        Some(st.view())
    } else {
        find_state(s, t)
    } by {
        if t != st.view().topic {
            if exists|k: int| 0 <= k < s.len() && (#[trigger] s[k].view()).topic == t {
                let k = choose|k: int| 0 <= k < s.len() && (#[trigger] s[k].view()).topic == t;
                assert(u[k] == s[k]);
                lemma_state_at(s, k);
                lemma_state_at(u, k);
            }
            if exists|k: int| 0 <= k < u.len() && (#[trigger] u[k].view()).topic == t {
                let k = choose|k: int| 0 <= k < u.len() && (#[trigger] u[k].view()).topic == t;
                assert(k != s.len());
                assert(u[k] == s[k]);
            }
        }
    }
}

proof fn lemma_state_remove(s: Seq<TopicState>, i: int)
    requires
        topics_unique(s),
        0 <= i < s.len(),
    ensures
        topics_unique(s.remove(i)),
        forall|t: TopicId| #[trigger] find_state(s.remove(i), t) == if t == s[i].view().topic {
            None
        } else {
            find_state(s, t)
        },
{
    let u = s.remove(i);
    assert forall|a: int, b: int| 0 <= a < b < u.len() implies u[a].view().topic != u[b].view().topic by {
        let a2 = if a < i { a } else { a + 1 };
        let b2 = if b < i { b } else { b + 1 };
        assert(u[a] == s[a2]);
        assert(u[b] == s[b2]);
        assert(s[a2].view().topic != s[b2].view().topic);
    }
    assert forall|t: TopicId| #[trigger] find_state(u, t) == if t == s[i].view().topic {
        None
    } else {
        find_state(s, t)
    } by {
        if exists|k: int| 0 <= k < u.len() && (#[trigger] u[k].view()).topic == t {
            let k = choose|k: int| 0 <= k < u.len() && (#[trigger] u[k].view()).topic == t;
            let k2 = if k < i { k } else { k + 1 };
            assert(u[k] == s[k2]);
            assert(k2 != i ==> (k2 < i ==> s[k2].view().topic != s[i].view().topic));
            assert(k2 != i ==> (k2 > i ==> s[i].view().topic != s[k2].view().topic));
            lemma_state_at(s, k2);
            lemma_state_at(u, k);
        }
        if t != s[i].view().topic {
            if exists|k: int| 0 <= k < s.len() && (#[trigger] s[k].view()).topic == t {
                let k = choose|k: int| 0 <= k < s.len() && (#[trigger] s[k].view()).topic == t;
                assert(k != i);
                let k2 = if k < i { k } else { k - 1 };
                assert(u[k2] == s[k]);
            }
        }
    }
}

/// `n` is `o` with `peer` dropped from the eager and lazy peers.
pub open spec fn peer_dropped(o: TopicView, n: TopicView, peer: PeerId) -> bool {
    &&& forall|q: PeerId| #[trigger] n.eager.contains(q) == (o.eager.contains(q) && q != peer)
    &&& forall|q: PeerId| #[trigger] n.lazy.contains(q) == (o.lazy.contains(q) && q != peer)
    &&& n.cached == o.cached && n.pending == o.pending && n.wants == o.wants && n.topic == o.topic
}

/// Plumtree pub/sub: per-topic dissemination state for the local peer.
pub struct PlumtreePubSub {
    topics: Vec<TopicState>,
    peer_id: PeerId,
}

impl PlumtreePubSub {
    pub closed spec fn wf(&self) -> bool {
        &&& topics_unique(self.topics@)
        &&& forall|i: int| 0 <= i < self.topics@.len() ==> (#[trigger] self.topics@[i]).wf()
    }

    /// The state of topic `t`, if it has one.
    pub closed spec fn state(&self, t: TopicId) -> Option<TopicView> {
        find_state(self.topics@, t)
    }

    /// The state of topic `t`, or the fresh one it would start from.
    pub open spec fn current(&self, t: TopicId) -> TopicView {
        match self.state(t) {
            Some(v) => v,
            None => fresh_view(t),
        }
    }

    pub closed spec fn local_peer(&self) -> PeerId {
        self.peer_id
    }

    /// Every topic's state is well formed.
    pub proof fn lemma_states_wf(&self, t: TopicId)
        requires
            self.wf(),
        ensures
            self.state(t) matches Some(v) ==> view_wf(v) && v.topic == t,
    {
        if exists|i: int| 0 <= i < self.topics@.len() && (#[trigger] self.topics@[i].view()).topic == t {
            let i = choose|i: int| 0 <= i < self.topics@.len() && (#[trigger] self.topics@[i].view()).topic == t;
            lemma_state_at(self.topics@, i);
            self.topics@[i].lemma_wf();
        }
    }

    /// An engine for the local peer `peer_id`, with no topic yet.
    pub fn new(peer_id: PeerId) -> (r: PlumtreePubSub)
        ensures
            r.wf(),
            r.local_peer() == peer_id,
            forall|t: TopicId| #[trigger] r.state(t) is None,
    {
        PlumtreePubSub { topics: Vec::new(), peer_id }
    }

    pub fn peer_id(&self) -> (r: PeerId)
        ensures
            r == self.local_peer(),
    {
        self.peer_id
    }

    fn position(&self, t: &TopicId) -> (r: Option<usize>)
        requires
            self.wf(),
        ensures
            match r {
                Some(i) => i < self.topics@.len() && self.topics@[i as int].view().topic == *t,
                None => self.state(*t) is None,
            },
    {
        let mut i: usize = 0;
        while i < self.topics.len()
            invariant
                0 <= i <= self.topics@.len(),
                forall|k: int| 0 <= k < i ==> (#[trigger] self.topics@[k].view()).topic != *t,
            decreases self.topics@.len() - i,
        {
            if self.topics[i].topic_id() == *t {
                return Some(i);
            }
            i = i + 1;
        }
        None
    }

    /// The state of topic `t`, if it has one.
    pub fn topic(&self, t: &TopicId) -> (r: Option<&TopicState>)
        requires
            self.wf(),
        ensures
            match r {
                Some(st) => self.state(*t) == Some(st.view()) && st.wf(),
                None => self.state(*t) is None,
            },
    {
        match self.position(t) {
            Some(i) => {
                proof {
                    lemma_state_at(self.topics@, i as int);
                }
                Some(&self.topics[i])
            },
            None => None,
        }
    }

    /// The topics that have a state.
    pub fn topic_ids(&self) -> (r: Vec<TopicId>)
        requires
            self.wf(),
        ensures
            forall|t: TopicId| r@.contains(t) <==> self.state(t) is Some,
    {
        let mut r: Vec<TopicId> = Vec::new();
        let mut i: usize = 0;
        while i < self.topics.len()
            invariant
                self.wf(),
                0 <= i <= self.topics@.len(),
                r@.len() == i,
                forall|k: int| 0 <= k < i ==> r@[k] == (#[trigger] self.topics@[k]).view().topic,
            decreases self.topics@.len() - i,
        {
            r.push(self.topics[i].topic_id());
            i = i + 1;
        }
        assert forall|t: TopicId| r@.contains(t) <==> self.state(t) is Some by {
            if r@.contains(t) {
                let k = choose|k: int| 0 <= k < r@.len() && r@[k] == t;
                assert(self.topics@[k].view().topic == t);
            }
            if self.state(t) is Some {
                let k = choose|k: int| 0 <= k < self.topics@.len() && (#[trigger] self.topics@[k].view()).topic == t;
                assert(r@[k] == t);
            }
        }
        r
    }

    /// Takes out the state of `t` (a fresh one when it has none), leaving the others.
    fn take(&mut self, t: TopicId) -> (r: (TopicState, usize))
        requires
            old(self).wf(),
        ensures
            r.0.wf(),
            r.0.view() == old(self).current(t),
            r.1 <= final(self).topics@.len(),
            final(self).topics@ == old(self).topics@.remove(r.1 as int) || (old(self).state(t) is None && final(self).topics@ == old(self).topics@ && r.1 == old(self).topics@.len()),
            final(self).peer_id == old(self).peer_id,
            topics_unique(final(self).topics@),
            forall|i: int| 0 <= i < final(self).topics@.len() ==> (#[trigger] final(self).topics@[i]).wf(),
            forall|u: TopicId| #[trigger] find_state(final(self).topics@, u) == if u == t { None } else { old(self).state(u) },
    {
        match self.position(&t) {
            Some(i) => {
                proof {
                    lemma_state_at(self.topics@, i as int);
                    lemma_state_remove(self.topics@, i as int);
                }
                let st = self.topics.remove(i);
                assert forall|k: int| 0 <= k < self.topics@.len() implies (#[trigger] self.topics@[k]).wf() by {
                    let k2 = if k < i { k } else { k + 1 };
                    assert(self.topics@[k] == old(self).topics@[k2]);
                }
                (st, i)
            },
            None => {
                let st = TopicState::new(t);
                (st, self.topics.len())
            },
        }
    }

    /// Puts back the state `st` at position `i`.
    fn put(&mut self, st: TopicState, i: usize)
        requires
            st.wf(),
            i <= old(self).topics@.len(),
            topics_unique(old(self).topics@),
            forall|k: int| 0 <= k < old(self).topics@.len() ==> (#[trigger] old(self).topics@[k]).wf(),
            find_state(old(self).topics@, st.view().topic) is None,
        ensures
            final(self).wf(),
            final(self).peer_id == old(self).peer_id,
            forall|u: TopicId| #[trigger] final(self).state(u) == if u == st.view().topic { Some(st.view()) } else { find_state(old(self).topics@, u) },
    {
        let ghost s0 = self.topics@;
        self.topics.insert(i, st);
        proof {
            let s1 = self.topics@;
            assert(s1 =~= s0.insert(i as int, st));
            assert forall|a: int, b: int| 0 <= a < b < s1.len() implies s1[a].view().topic != s1[b].view().topic by {
                if a == i {
                    let b2 = b - 1;
                    assert(s1[b] == s0[b2]);
                    if s0[b2].view().topic == st.view().topic {
                        assert(exists|k: int| 0 <= k < s0.len() && (#[trigger] s0[k].view()).topic == st.view().topic);
                    }
                } else if b == i {
                    assert(s1[a] == s0[a]);
                    if s0[a].view().topic == st.view().topic {
                        assert(exists|k: int| 0 <= k < s0.len() && (#[trigger] s0[k].view()).topic == st.view().topic);
                    }
                } else {
                    let a2 = if a < i { a } else { a - 1 };
                    let b2 = if b < i { b } else { b - 1 };
                    assert(s1[a] == s0[a2]);
                    assert(s1[b] == s0[b2]);
                }
            }
            assert forall|k: int| 0 <= k < s1.len() implies (#[trigger] s1[k]).wf() by {
                if k != i {
                    let k2 = if k < i { k } else { k - 1 };
                    assert(s1[k] == s0[k2]);
                }
            }
            lemma_state_at(s1, i as int);
            assert forall|u: TopicId| #[trigger] find_state(s1, u) == if u == st.view().topic { Some(st.view()) } else { find_state(s0, u) } by {
                if u != st.view().topic {
                    if exists|k: int| 0 <= k < s0.len() && (#[trigger] s0[k].view()).topic == u {
                        let k = choose|k: int| 0 <= k < s0.len() && (#[trigger] s0[k].view()).topic == u;
                        let k1 = if k < i { k } else { k + 1 };
                        assert(s1[k1] == s0[k]);
                        lemma_state_at(s0, k);
                        lemma_state_at(s1, k1);
                    }
                    if exists|k: int| 0 <= k < s1.len() && (#[trigger] s1[k].view()).topic == u {
                        let k = choose|k: int| 0 <= k < s1.len() && (#[trigger] s1[k].view()).topic == u;
                        assert(k != i);
                        let k2 = if k < i { k } else { k - 1 };
                        assert(s1[k] == s0[k2]);
                    }
                }
            }
        }
    }

    /// Creates the state of topic `t` if it has none.
    pub fn subscribe(&mut self, t: TopicId)
        requires
            old(self).wf(),
        ensures
            final(self).wf(),
            final(self).local_peer() == old(self).local_peer(),
            forall|u: TopicId| #[trigger] final(self).state(u) == if u == t { Some(old(self).current(t)) } else { old(self).state(u) },
    {
        let (st, i) = self.take(t);
        self.put(st, i);
    }

    /// Drops the state of topic `t`.
    pub fn unsubscribe(&mut self, t: TopicId)
        requires
            old(self).wf(),
        ensures
            final(self).wf(),
            final(self).local_peer() == old(self).local_peer(),
            forall|u: TopicId| #[trigger] final(self).state(u) == if u == t { None } else { old(self).state(u) },
    {
        let (_st, _i) = self.take(t);
    }
    /// Publishes `payload` on `topic` from the local peer at `now` (see `TopicState::publish`).
    pub fn publish_local(&mut self, topic: TopicId, payload: Vec<u8>, now: u64) -> (r: Vec<PubSubAction>)
        requires
            old(self).wf(),
        ensures
            final(self).wf(),
            final(self).local_peer() == old(self).local_peer(),
            final(self).state(topic) is Some,
            forall|u: TopicId| u != topic ==> #[trigger] final(self).state(u) == old(self).state(u),
            ({
                let o = old(self).current(topic);
                let n = final(self).current(topic);
                let id_bytes = message_id_of(o.topic, now / 1000, old(self).local_peer(), payload@);
                exists|id: MessageId| {
                    &&& id@ == id_bytes
                    &&& o.cached.contains_key(id) ==> n == o && r@.len() == 0
                    &&& !o.cached.contains_key(id) ==> {
                        &&& cache_stored(o.cached, n.cached, id, CachedView { payload: payload@, inserted_at: now, header: publish_header(o.topic, id) })
                        &&& n.pending == pending_pushed(o.pending, id)
                        &&& actions_view(r@) == eager_sends(o.eager, None, publish_header(o.topic, id), payload@).push(
                            Action::Deliver { from: old(self).local_peer(), topic: o.topic, payload: payload@ })
                    }
                }
            }),
            final(self).current(topic).eager == old(self).current(topic).eager,
            final(self).current(topic).lazy == old(self).current(topic).lazy,
            final(self).current(topic).wants == old(self).current(topic).wants,
            final(self).current(topic).topic == old(self).current(topic).topic,
    {
        let (mut st, i) = self.take(topic);
        let origin = self.peer_id;
        let r = st.publish(origin, payload, now);
        self.put(st, i);
        r
    }

    /// Handles an EAGER on `topic` (see `TopicState::handle_eager`).
    pub fn handle_eager(&mut self, from: PeerId, topic: TopicId, message: GossipMessage, signature_valid: bool, now: u64) -> (r: Result<Vec<PubSubAction>, PubSubError>)
        requires
            old(self).wf(),
        ensures
            final(self).wf(),
            final(self).local_peer() == old(self).local_peer(),
            final(self).state(topic) is Some,
            forall|u: TopicId| u != topic ==> #[trigger] final(self).state(u) == old(self).state(u),
            eager_handled(
                old(self).current(topic),
                final(self).current(topic),
                from,
                message.header,
                payload_view(message),
                signature_valid,
                now,
                result_view(r),
            ),
    {
        let (mut st, i) = self.take(topic);
        let r = st.handle_eager(from, message, signature_valid, now);
        self.put(st, i);
        r
    }

    /// Handles an IHAVE on `topic` (see `TopicState::handle_ihave`).
    pub fn handle_ihave(&mut self, from: PeerId, topic: TopicId, msg_ids: &Vec<MessageId>, now: u64) -> (r: Vec<PubSubAction>)
        requires
            old(self).wf(),
        ensures
            final(self).wf(),
            final(self).local_peer() == old(self).local_peer(),
            final(self).state(topic) is Some,
            forall|u: TopicId| u != topic ==> #[trigger] final(self).state(u) == old(self).state(u),
            ihave_handled(old(self).current(topic), final(self).current(topic), from, msg_ids@, now, actions_view(r@)),
    {
        let (mut st, i) = self.take(topic);
        let r = st.handle_ihave(from, msg_ids, now);
        self.put(st, i);
        r
    }

    /// Handles an IWANT on `topic` (see `TopicState::handle_iwant`).
    pub fn handle_iwant(&mut self, from: PeerId, topic: TopicId, msg_ids: &Vec<MessageId>) -> (r: Vec<PubSubAction>)
        requires
            old(self).wf(),
        ensures
            final(self).wf(),
            final(self).local_peer() == old(self).local_peer(),
            final(self).state(topic) is Some,
            forall|u: TopicId| u != topic ==> #[trigger] final(self).state(u) == old(self).state(u),
            iwant_handled(old(self).current(topic), final(self).current(topic), from, msg_ids@, actions_view(r@)),
    {
        let (mut st, i) = self.take(topic);
        let r = st.handle_iwant(from, msg_ids);
        self.put(st, i);
        r
    }

    /// Handles a PRUNE on `topic`: `from` becomes lazy.
    pub fn handle_prune(&mut self, from: PeerId, topic: TopicId)
        requires
            old(self).wf(),
        ensures
            final(self).wf(),
            final(self).local_peer() == old(self).local_peer(),
            final(self).state(topic) is Some,
            forall|u: TopicId| u != topic ==> #[trigger] final(self).state(u) == old(self).state(u),
            moved_to_lazy(old(self).current(topic).eager, old(self).current(topic).lazy, from, final(self).current(topic).eager, final(self).current(topic).lazy),
            final(self).current(topic).cached == old(self).current(topic).cached,
            final(self).current(topic).pending == old(self).current(topic).pending,
            final(self).current(topic).wants == old(self).current(topic).wants,
            final(self).current(topic).topic == old(self).current(topic).topic,
    {
        let (mut st, i) = self.take(topic);
        st.handle_prune(from);
        self.put(st, i);
    }

    /// Handles a GRAFT on `topic` (see `TopicState::handle_graft`).
    pub fn handle_graft(&mut self, from: PeerId, topic: TopicId, msg_id: &MessageId) -> (r: Vec<PubSubAction>)
        requires
            old(self).wf(),
        ensures
            final(self).wf(),
            final(self).local_peer() == old(self).local_peer(),
            final(self).state(topic) is Some,
            forall|u: TopicId| u != topic ==> #[trigger] final(self).state(u) == old(self).state(u),
            ({
                let o = old(self).current(topic);
                let n = final(self).current(topic);
                &&& moved_to_eager(o.eager, o.lazy, from, n.eager, n.lazy)
                &&& actions_view(r@) == if o.cached.contains_key(*msg_id) {
                    seq![Action::Eager { to: from, header: o.cached[*msg_id].header, payload: o.cached[*msg_id].payload }]
                } else {
                    Seq::empty()
                }
                &&& n.cached == o.cached && n.pending == o.pending && n.wants == o.wants && n.topic == o.topic
            }),
    {
        let (mut st, i) = self.take(topic);
        let r = st.handle_graft(from, msg_id);
        self.put(st, i);
        r
    }

    /// Makes every peer of `peers` eager on `topic`.
    pub fn initialize_topic_peers(&mut self, topic: TopicId, peers: &Vec<PeerId>)
        requires
            old(self).wf(),
        ensures
            final(self).wf(),
            final(self).local_peer() == old(self).local_peer(),
            final(self).state(topic) is Some,
            forall|u: TopicId| u != topic ==> #[trigger] final(self).state(u) == old(self).state(u),
            forall|q: PeerId| #[trigger] final(self).current(topic).eager.contains(q) == (old(self).current(topic).eager.contains(q) || peers@.contains(q)),
            forall|q: PeerId| #[trigger] final(self).current(topic).lazy.contains(q) == (old(self).current(topic).lazy.contains(q) && !peers@.contains(q)),
            final(self).current(topic).cached == old(self).current(topic).cached,
            final(self).current(topic).pending == old(self).current(topic).pending,
            final(self).current(topic).wants == old(self).current(topic).wants,
            final(self).current(topic).topic == old(self).current(topic).topic,
    {
        let (mut st, i) = self.take(topic);
        st.initialize_peers(peers);
        self.put(st, i);
    }

    /// Flushes the IHAVE batch of `topic` (see `TopicState::flush_ihave`).
    pub fn flush_ihave(&mut self, topic: TopicId) -> (r: Vec<PubSubAction>)
        requires
            old(self).wf(),
        ensures
            final(self).wf(),
            final(self).local_peer() == old(self).local_peer(),
            final(self).state(topic) is Some,
            forall|u: TopicId| u != topic ==> #[trigger] final(self).state(u) == old(self).state(u),
            ({
                let o = old(self).current(topic);
                let n = final(self).current(topic);
                let k = if o.pending.len() < MAX_IHAVE_BATCH_SIZE { o.pending.len() as int } else { MAX_IHAVE_BATCH_SIZE as int };
                let batch = o.pending.take(k);
                &&& n.pending == o.pending.skip(k)
                &&& actions_view(r@) == if k > 0 {
                    Seq::new(o.lazy.len(), |i: int| Action::IHave { to: o.lazy[i], topic: o.topic, msg_ids: batch })
                } else {
                    Seq::empty()
                }
                &&& n.eager == o.eager && n.lazy == o.lazy && n.cached == o.cached && n.wants == o.wants && n.topic == o.topic
            }),
    {
        let (mut st, i) = self.take(topic);
        let r = st.flush_ihave();
        self.put(st, i);
        r
    }

    /// Drops the expired messages of `topic`'s cache.
    pub fn clean_cache(&mut self, topic: TopicId, now: u64)
        requires
            old(self).wf(),
        ensures
            final(self).wf(),
            final(self).local_peer() == old(self).local_peer(),
            final(self).state(topic) is Some,
            forall|u: TopicId| u != topic ==> #[trigger] final(self).state(u) == old(self).state(u),
            forall|k: MessageId| #[trigger] final(self).current(topic).cached.contains_key(k)
                == (old(self).current(topic).cached.contains_key(k) && !cache_expired(old(self).current(topic).cached[k].inserted_at, now)),
            forall|k: MessageId| #[trigger] final(self).current(topic).cached.contains_key(k)
                ==> final(self).current(topic).cached[k] == old(self).current(topic).cached[k],
            final(self).current(topic).eager == old(self).current(topic).eager,
            final(self).current(topic).lazy == old(self).current(topic).lazy,
            final(self).current(topic).pending == old(self).current(topic).pending,
            final(self).current(topic).wants == old(self).current(topic).wants,
            final(self).current(topic).topic == old(self).current(topic).topic,
    {
        let (mut st, i) = self.take(topic);
        st.clean_cache(now);
        self.put(st, i);
    }

    /// Restores the eager degree of `topic` (see `TopicState::maintain_degree`).
    pub fn maintain_degree(&mut self, topic: TopicId)
        requires
            old(self).wf(),
        ensures
            final(self).wf(),
            final(self).local_peer() == old(self).local_peer(),
            final(self).state(topic) is Some,
            forall|u: TopicId| u != topic ==> #[trigger] final(self).state(u) == old(self).state(u),
            forall|q: PeerId|
                #![trigger final(self).current(topic).eager.contains(q)] #![trigger final(self).current(topic).lazy.contains(q)] (final(self).current(topic).eager.contains(q) || final(self).current(topic).lazy.contains(q))
                    == (old(self).current(topic).eager.contains(q) || old(self).current(topic).lazy.contains(q)),
            old(self).current(topic).eager.len() < MIN_EAGER_DEGREE ==> {
                &&& forall|q: PeerId| old(self).current(topic).eager.contains(q) ==> #[trigger] final(self).current(topic).eager.contains(q)
                &&& final(self).current(topic).eager.len() <= MIN_EAGER_DEGREE
                &&& final(self).current(topic).eager.len() < MIN_EAGER_DEGREE ==> final(self).current(topic).lazy.len() == 0
            },
            old(self).current(topic).eager.len() > MAX_EAGER_DEGREE ==> {
                &&& forall|q: PeerId| #[trigger] final(self).current(topic).eager.contains(q) ==> old(self).current(topic).eager.contains(q)
                &&& final(self).current(topic).eager.len() == MAX_EAGER_DEGREE
            },
            MIN_EAGER_DEGREE <= old(self).current(topic).eager.len() <= MAX_EAGER_DEGREE ==> final(self).current(topic) == old(self).current(topic),
            final(self).current(topic).cached == old(self).current(topic).cached,
            final(self).current(topic).pending == old(self).current(topic).pending,
            final(self).current(topic).wants == old(self).current(topic).wants,
            final(self).current(topic).topic == old(self).current(topic).topic,
    {
        let (mut st, i) = self.take(topic);
        st.maintain_degree();
        self.put(st, i);
    }

    /// Drops `peer` from the eager and lazy peers of every topic.
    pub fn remove_peer(&mut self, peer: &PeerId)
        requires
            old(self).wf(),
        ensures
            final(self).wf(),
            final(self).local_peer() == old(self).local_peer(),
            forall|u: TopicId| #[trigger] final(self).state(u) is Some == old(self).state(u) is Some,
            forall|u: TopicId| #[trigger] old(self).state(u) is Some ==> peer_dropped(
                old(self).state(u)->Some_0, final(self).state(u)->Some_0, *peer),
    {
        let ghost s0 = self.topics@;
        let mut i: usize = 0;
        while i < self.topics.len()
            invariant
                topics_unique(self.topics@),
                forall|k: int| 0 <= k < self.topics@.len() ==> (#[trigger] self.topics@[k]).wf(),
                self.peer_id == old(self).peer_id,
                self.topics@.len() == s0.len(),
                s0 == old(self).topics@,
                0 <= i <= s0.len(),
                forall|k: int| 0 <= k < i ==> peer_dropped(s0[k].view(), (#[trigger] self.topics@[k]).view(), *peer),
                forall|k: int| i <= k < s0.len() ==> #[trigger] self.topics@[k] == s0[k],
            decreases s0.len() - i,
        {
            let ghost before = self.topics@;
            let mut st = self.topics.remove(i);
            st.remove_peer(peer);
            self.topics.insert(i, st);
            proof {
                assert(self.topics@ =~= before.update(i as int, st));
                lemma_state_update(before, i as int, st);
                assert forall|k: int| 0 <= k < self.topics@.len() implies (#[trigger] self.topics@[k]).wf() by {
                    if k != i {
                        assert(self.topics@[k] == before[k]);
                    }
                }
                assert forall|k: int| 0 <= k < i + 1 implies peer_dropped(s0[k].view(), (#[trigger] self.topics@[k]).view(), *peer) by {
                    if k < i {
                        assert(self.topics@[k] == before[k]);
                    }
                }
            }
            i = i + 1;
        }
        proof {
            let s1 = self.topics@;
            assert forall|u: TopicId| #[trigger] find_state(s1, u) is Some == find_state(s0, u) is Some by {
                if exists|k: int| 0 <= k < s0.len() && (#[trigger] s0[k].view()).topic == u {
                    let k = choose|k: int| 0 <= k < s0.len() && (#[trigger] s0[k].view()).topic == u;
                    assert(s1[k].view().topic == u);
                }
                if exists|k: int| 0 <= k < s1.len() && (#[trigger] s1[k].view()).topic == u {
                    let k = choose|k: int| 0 <= k < s1.len() && (#[trigger] s1[k].view()).topic == u;
                    assert(s0[k].view().topic == u);
                }
            }
            assert forall|u: TopicId| #[trigger] find_state(s0, u) is Some implies peer_dropped(
                find_state(s0, u)->Some_0, find_state(s1, u)->Some_0, *peer) by {
                let k = choose|k: int| 0 <= k < s0.len() && (#[trigger] s0[k].view()).topic == u;
                assert(s1[k].view().topic == u);
                lemma_state_at(s0, k);
                lemma_state_at(s1, k);
            }
        }
    }

    /// Runs the IWANT retry tick of `topic` at `now` (see `TopicState::retry_iwants`).
    pub fn retry_iwants(&mut self, topic: TopicId, now: u64) -> (r: Vec<PubSubAction>)
        requires
            old(self).wf(),
        ensures
            final(self).wf(),
            final(self).local_peer() == old(self).local_peer(),
            final(self).state(topic) is Some,
            forall|u: TopicId| u != topic ==> #[trigger] final(self).state(u) == old(self).state(u),
            final(self).current(topic).wants == retried(old(self).current(topic).wants, now),
            actions_view(r@) == retry_requests(old(self).current(topic).wants, old(self).current(topic).topic, now),
            final(self).current(topic).cached == old(self).current(topic).cached,
            final(self).current(topic).eager == old(self).current(topic).eager,
            final(self).current(topic).lazy == old(self).current(topic).lazy,
            final(self).current(topic).pending == old(self).current(topic).pending,
            final(self).current(topic).topic == old(self).current(topic).topic,
    {
        let (mut st, i) = self.take(topic);
        let r = st.retry_iwants(now);
        self.put(st, i);
        r
    }

    /// Handles a failed EAGER send on `topic` (see `TopicState::handle_send_failure`).
    pub fn handle_send_failure(&mut self, topic: TopicId, peer: PeerId, header: MessageHeader, payload: Vec<u8>) -> (r: Vec<PubSubAction>)
        requires
            old(self).wf(),
        ensures
            final(self).wf(),
            final(self).local_peer() == old(self).local_peer(),
            final(self).state(topic) is Some,
            forall|u: TopicId| u != topic ==> #[trigger] final(self).state(u) == old(self).state(u),
            ({
                let o = old(self).current(topic);
                let n = final(self).current(topic);
                &&& forall|q: PeerId| #[trigger] n.eager.contains(q) == (o.eager.contains(q) && q != peer)
                &&& n.lazy == o.lazy
                &&& actions_view(r@) == if o.lazy.len() > 0 {
                    seq![Action::Eager { to: o.lazy[0], header, payload: payload@ }]
                } else {
                    Seq::empty()
                }
                &&& n.cached == o.cached && n.pending == o.pending && n.wants == o.wants && n.topic == o.topic
            }),
    {
        let (mut st, i) = self.take(topic);
        let r = st.handle_send_failure(peer, header, payload);
        self.put(st, i);
        r
    }
}

} // verus!
