//! HyParView overlay: a small symmetric active view and a larger passive view,
//! healed by promotion and shuffling, fed by the SWIM failure detector.

use vstd::prelude::*;
use crate::peers::{holds, insert_peer, remove_peer};
use crate::swim::{
    recorded,
    PeerState, SwimDetector, suspect_expired, SWIM_PROBE_INTERVAL_SECS, SWIM_SUSPECT_TIMEOUT_SECS,
};
use crate::types::PeerId;

verus! {

/// Default active view degree.
pub const DEFAULT_ACTIVE_DEGREE: usize = 8;

/// Hard cap on the active view.
pub const MAX_ACTIVE_DEGREE: usize = 12;

/// Degree that maintenance restores the active view to.
pub const MIN_ACTIVE_DEGREE: usize = 6;

/// Default passive view degree.
pub const DEFAULT_PASSIVE_DEGREE: usize = 64;

/// Hard cap on the passive view.
pub const MAX_PASSIVE_DEGREE: usize = 128;

/// Random walk length given to the FORWARD_JOINs of a JOIN.
pub const ACTIVE_WALK_LENGTH: usize = 6;

/// Remaining walk length at which a FORWARD_JOIN also seeds the passive view.
pub const PASSIVE_WALK_LENGTH: usize = 3;

/// Shuffle period in seconds.
pub const SHUFFLE_PERIOD_SECS: u64 = 30;

/// Overlay protocol messages.
#[derive(Clone, Debug)]
pub enum HyParViewMessage {
    Join(PeerId),
    Shuffle(Vec<PeerId>),
    ShuffleReply(Vec<PeerId>),
    ForwardJoin(PeerId, usize),
    Disconnect,
}

/// `new_active`/`new_passive` is what adding `peer` to the active view of
/// `active`/`passive` yields: the peer leaves the passive view, and when the active
/// view already holds `degree` peers one of them, `evicted`, is moved to the passive
/// view, if that has room below `passive_cap`.
pub open spec fn added_active(
    active: Seq<PeerId>,
    passive: Seq<PeerId>,
    degree: nat,
    passive_cap: nat,
    peer: PeerId,
    evicted: Option<PeerId>,
    new_active: Seq<PeerId>,
    new_passive: Seq<PeerId>,
) -> bool {
    if active.contains(peer) {
        evicted is None && new_active == active && new_passive == passive
    } else {
        let rest_len = if passive.contains(peer) { passive.len() - 1 } else { passive.len() as int };
        if active.len() < degree {
            &&& evicted is None
            &&& new_active.len() == active.len() + 1
            &&& forall|q: PeerId| #[trigger] new_active.contains(q) == (active.contains(q) || q == peer)
            &&& forall|q: PeerId| #[trigger] new_passive.contains(q) == (passive.contains(q) && q != peer)
        } else {
            &&& evicted is Some
            &&& active.contains(evicted->Some_0)
            &&& new_active.len() == active.len()
            &&& forall|q: PeerId| #[trigger]
                new_active.contains(q) == ((active.contains(q) && q != evicted->Some_0) || q == peer)
            &&& forall|q: PeerId| #[trigger]
                new_passive.contains(q) == ((passive.contains(q) && q != peer) || (q == evicted->Some_0
                    && rest_len < passive_cap))
        }
    }
}

/// The passive view after merging `incoming`, in order, into `passive`: a peer is
/// taken when it is in neither view and the passive view is below `cap`.
pub open spec fn merged_passive(
    active: Seq<PeerId>,
    passive: Seq<PeerId>,
    incoming: Seq<PeerId>,
    cap: nat,
) -> Seq<PeerId>
    decreases incoming.len(),
{
    if incoming.len() == 0 {
        passive
    } else {
        let p = merged_passive(active, passive, incoming.drop_last(), cap);
        let q = incoming.last();
        if active.contains(q) || p.contains(q) || p.len() >= cap {
            p
        } else {
            p.push(q)
        }
    }
}

/// Whether `states` holds `q` as dead.
pub open spec fn is_dead(states: Map<PeerId, (PeerState, u64)>, q: PeerId) -> bool {
    states.contains_key(q) && states[q].0 == PeerState::Dead
}

/// `a1`/`p1` are the views `a0`/`p0` healed after the peers in `gone` left: the
/// survivors stay, no peer is created or lost beyond `gone`, and the active view is
/// refilled from the passive view up to `MIN_ACTIVE_DEGREE`, and no further, with
/// peers that are not `blocked` (held dead).
pub open spec fn healed(
    a0: Seq<PeerId>,
    p0: Seq<PeerId>,
    gone: spec_fn(PeerId) -> bool,
    blocked: spec_fn(PeerId) -> bool,
    a1: Seq<PeerId>,
    p1: Seq<PeerId>,
) -> bool {
    &&& forall|q: PeerId|
        #![trigger a1.contains(q)] #![trigger p1.contains(q)] (a1.contains(q) || p1.contains(q)) == ((a0.contains(q)
            || p0.contains(q)) && !gone(q))
    &&& forall|q: PeerId| a0.contains(q) && !gone(q) ==> #[trigger] a1.contains(q)
    &&& a1.len() < MIN_ACTIVE_DEGREE ==> forall|q: PeerId| #[trigger] p1.contains(q) ==> blocked(q)
    &&& forall|q: PeerId| #[trigger] a1.contains(q) && !a0.contains(q) ==> a1.len() <= MIN_ACTIVE_DEGREE
        && !blocked(q)
}

/// Peers are never lost from a passive view by merging, and the merge stays below `cap`.
proof fn lemma_merged_grows(active: Seq<PeerId>, passive: Seq<PeerId>, incoming: Seq<PeerId>, cap: nat)
    requires
        passive.len() <= cap,
    ensures
        merged_passive(active, passive, incoming, cap).len() >= passive.len(),
        merged_passive(active, passive, incoming, cap).len() <= cap,
        merged_passive(active, passive, incoming, cap).len() > passive.len() ==> exists|q: PeerId|
            #[trigger] incoming.contains(q) && merged_passive(active, passive, incoming, cap).contains(q),
    decreases incoming.len(),
{
    if incoming.len() > 0 {
        let prev = incoming.drop_last();
        lemma_merged_grows(active, passive, prev, cap);
        let p = merged_passive(active, passive, prev, cap);
        let q = incoming.last();
        let m = merged_passive(active, passive, incoming, cap);
        if !(active.contains(q) || p.contains(q) || p.len() >= cap) {
            assert(m == p.push(q));
            assert(m[p.len() as int] == q);
            assert(incoming[incoming.len() - 1] == q);
            assert(incoming.contains(q) && m.contains(q));
        } else if p.len() > passive.len() {
            assert(m == p);
            let w = choose|w: PeerId| #[trigger] prev.contains(w) && p.contains(w);
            let k = choose|k: int| 0 <= k < prev.len() && prev[k] == w;
            assert(incoming[k] == w);
            assert(incoming.contains(w) && m.contains(w));
        }
    }
}

proof fn lemma_merged_keeps(
    active: Seq<PeerId>,
    passive: Seq<PeerId>,
    incoming: Seq<PeerId>,
    cap: nat,
    x: PeerId,
)
    requires
        merged_passive(active, passive, incoming.drop_last(), cap).contains(x),
        incoming.len() > 0,
    ensures
        merged_passive(active, passive, incoming, cap).contains(x),
{
    let p = merged_passive(active, passive, incoming.drop_last(), cap);
    let k = choose|k: int| 0 <= k < p.len() && p[k] == x;
    assert(p.push(incoming.last())[k] == x);
}

/// A shuffle exchange takes in at least one advertised peer whenever one of them
/// was unknown and the passive view had room.
pub proof fn lemma_shuffle_merges(
    active: Seq<PeerId>,
    passive: Seq<PeerId>,
    incoming: Seq<PeerId>,
    cap: nat,
)
    requires
        passive.len() < cap,
        exists|q: PeerId|
            #[trigger] incoming.contains(q) && !active.contains(q) && !passive.contains(q),
    ensures
        exists|q: PeerId|
            #[trigger] incoming.contains(q) && merged_passive(active, passive, incoming, cap).contains(q),
    decreases incoming.len(),
{
    let prev = incoming.drop_last();
    let last = incoming.last();
    let p = merged_passive(active, passive, prev, cap);
    lemma_merged_grows(active, passive, prev, cap);
    let w = choose|q: PeerId| #[trigger] incoming.contains(q) && !active.contains(q) && !passive.contains(q);
    let kw = choose|k: int| 0 <= k < incoming.len() && incoming[k] == w;
    let m = merged_passive(active, passive, incoming, cap);
    if kw < incoming.len() - 1 {
        assert(prev[kw] == w);
        assert(prev.contains(w));
        lemma_shuffle_merges(active, passive, prev, cap);
        let v = choose|q: PeerId| #[trigger] prev.contains(q) && p.contains(q);
        lemma_merged_keeps(active, passive, incoming, cap, v);
        let kv = choose|k: int| 0 <= k < prev.len() && prev[k] == v;
        assert(incoming[kv] == v);
        assert(incoming.contains(v) && m.contains(v));
    } else {
        assert(w == last);
        assert(incoming.contains(last));
        if p.contains(last) {
            lemma_merged_keeps(active, passive, incoming, cap, last);
            assert(incoming.contains(last) && m.contains(last));
        } else if p.len() >= cap {
            let v = choose|q: PeerId| #[trigger] prev.contains(q) && p.contains(q);
            lemma_merged_keeps(active, passive, incoming, cap, v);
            let kv = choose|k: int| 0 <= k < prev.len() && prev[k] == v;
            assert(incoming[kv] == v);
            assert(incoming.contains(v) && m.contains(v));
        } else {
            assert(m == p.push(last));
            assert(m[p.len() as int] == last);
            assert(incoming.contains(last) && m.contains(last));
        }
    }
}

/// A shuffle round trip: `a` offers `sample` to `b`, which merges it and replies with
/// `reply`, which `a` merges. Each side takes in at least one peer of the other's
/// sample whenever one of them was new to it and its passive view had room.
pub proof fn lemma_shuffle_round_trip(
    a_active: Seq<PeerId>,
    a_passive: Seq<PeerId>,
    a_cap: nat,
    b_active: Seq<PeerId>,
    b_passive: Seq<PeerId>,
    b_cap: nat,
    sample: Seq<PeerId>,
    reply: Seq<PeerId>,
)
    requires
        b_passive.len() < b_cap,
        exists|q: PeerId| #[trigger] sample.contains(q) && !b_active.contains(q) && !b_passive.contains(q),
        a_passive.len() < a_cap,
        exists|q: PeerId| #[trigger] reply.contains(q) && !a_active.contains(q) && !a_passive.contains(q),
    ensures
        exists|q: PeerId| #[trigger] sample.contains(q) && merged_passive(b_active, b_passive, sample, b_cap).contains(q),
        exists|q: PeerId| #[trigger] reply.contains(q) && merged_passive(a_active, a_passive, reply, a_cap).contains(q),
{
    lemma_shuffle_merges(b_active, b_passive, sample, b_cap);
    lemma_shuffle_merges(a_active, a_passive, reply, a_cap);
}

/// HyParView membership: active and passive views plus the failure detector.
pub struct HyParViewMembership {
    active: Vec<PeerId>,
    passive: Vec<PeerId>,
    swim: SwimDetector,
    active_degree: usize,
    passive_degree: usize,
}

impl HyParViewMembership {
    pub closed spec fn active(&self) -> Seq<PeerId> {
        self.active@
    }

    pub closed spec fn passive(&self) -> Seq<PeerId> {
        self.passive@
    }

    pub closed spec fn detector(&self) -> SwimDetector {
        self.swim
    }

    pub closed spec fn spec_active_degree(&self) -> nat {
        self.active_degree as nat
    }

    pub closed spec fn spec_passive_degree(&self) -> nat {
        self.passive_degree as nat
    }

    /// The views are duplicate-free, disjoint and within their caps.
    pub closed spec fn wf(&self) -> bool {
        &&& self.swim.wf()
        &&& self.active@.no_duplicates()
        &&& self.passive@.no_duplicates()
        &&& forall|p: PeerId| self.active@.contains(p) ==> !self.passive@.contains(p)
        &&& 1 <= self.active_degree <= MAX_ACTIVE_DEGREE
        &&& self.passive_degree <= MAX_PASSIVE_DEGREE
        &&& self.active@.len() <= MAX_ACTIVE_DEGREE
        &&& self.passive@.len() <= self.passive_degree
    }

    /// The views never exceed their hard caps and never share a peer.
    pub proof fn lemma_view_bounds(&self)
        requires
            self.wf(),
        ensures
            self.active().len() <= MAX_ACTIVE_DEGREE,
            self.passive().len() <= MAX_PASSIVE_DEGREE,
            self.active().no_duplicates(),
            self.passive().no_duplicates(),
            forall|p: PeerId| self.active().contains(p) ==> !self.passive().contains(p),
    {
    }

    /// Empty views with the given degrees and a fresh failure detector.
    pub fn new(active_degree: usize, passive_degree: usize) -> (r: HyParViewMembership)
        requires
            1 <= active_degree <= MAX_ACTIVE_DEGREE,
            passive_degree <= MAX_PASSIVE_DEGREE,
        ensures
            r.wf(),
            r.active() == Seq::<PeerId>::empty(),
            r.passive() == Seq::<PeerId>::empty(),
            r.detector().states() == Map::<PeerId, (PeerState, u64)>::empty(),
            r.detector().spec_probe_period() == SWIM_PROBE_INTERVAL_SECS,
            r.detector().spec_suspect_timeout() == SWIM_SUSPECT_TIMEOUT_SECS,
            r.spec_active_degree() == active_degree,
            r.spec_passive_degree() == passive_degree,
    {
        HyParViewMembership {
            active: Vec::new(),
            passive: Vec::new(),
            swim: SwimDetector::new(SWIM_PROBE_INTERVAL_SECS, SWIM_SUSPECT_TIMEOUT_SECS),
            active_degree,
            passive_degree,
        }
    }

    /// The failure detector.
    pub fn swim(&self) -> (r: &SwimDetector)
        ensures
            *r == self.detector(),
    {
        &self.swim
    }

    /// Snapshot of the active view.
    pub fn active_view(&self) -> (r: Vec<PeerId>)
        ensures
            r@ == self.active(),
    {
        self.active.clone()
    }

    /// Snapshot of the passive view.
    pub fn passive_view(&self) -> (r: Vec<PeerId>)
        ensures
            r@ == self.passive(),
    {
        self.passive.clone()
    }

    /// Puts `peer` in the active view (see `added_active`) and marks it alive;
    /// returns the peer evicted to make room, which is to be sent a DISCONNECT.
    pub fn add_active(&mut self, peer: PeerId, now: u64) -> (r: Option<PeerId>)
        requires
            old(self).wf(),
        ensures
            final(self).wf(),
            final(self).active().contains(peer),
            added_active(
                old(self).active(),
                old(self).passive(),
                old(self).spec_active_degree(),
                old(self).spec_passive_degree(),
                peer,
                r,
                final(self).active(),
                final(self).passive(),
            ),
            recorded(
                old(self).detector().states(),
                old(self).detector().tracked_len(),
                final(self).detector().states(),
                peer,
                (PeerState::Alive, now),
            ),
            final(self).detector().spec_suspect_timeout() == old(self).detector().spec_suspect_timeout(),
            final(self).spec_active_degree() == old(self).spec_active_degree(),
            final(self).spec_passive_degree() == old(self).spec_passive_degree(),
    {
        let mut evicted: Option<PeerId> = None;
        if !holds(&self.active, &peer) {
            let ghost a0 = self.active@;
            remove_peer(&mut self.passive, &peer);
            if self.active.len() >= self.active_degree {
                let e = self.active[0];
                proof {
                    crate::peers::lemma_remove_index(self.active@, 0);
                }
                self.active.remove(0);
                if self.passive.len() < self.passive_degree {
                    insert_peer(&mut self.passive, e);
                }
                insert_peer(&mut self.active, peer);
                assert(a0.contains(e)) by {
                    assert(a0[0] == e);
                }
                evicted = Some(e);
            } else {
                insert_peer(&mut self.active, peer);
            }
        }
        self.swim.mark_alive(peer, now);
        evicted
    }

    /// Takes `peer` out of the active view and marks it dead; returns whether it was there.
    pub fn remove_active(&mut self, peer: PeerId, now: u64) -> (r: bool)
        requires
            old(self).wf(),
        ensures
            final(self).wf(),
            r == old(self).active().contains(peer),
            forall|q: PeerId| #[trigger]
                final(self).active().contains(q) == (old(self).active().contains(q) && q != peer),
            final(self).passive() == old(self).passive(),
            if r {
                recorded(
                    old(self).detector().states(),
                    old(self).detector().tracked_len(),
                    final(self).detector().states(),
                    peer,
                    (PeerState::Dead, now),
                )
            } else {
                final(self).detector().states() == old(self).detector().states()
            },
            final(self).detector().spec_suspect_timeout() == old(self).detector().spec_suspect_timeout(),
            final(self).spec_active_degree() == old(self).spec_active_degree(),
            final(self).spec_passive_degree() == old(self).spec_passive_degree(),
    {
        let removed = remove_peer(&mut self.active, &peer);
        if removed {
            self.swim.mark_dead(peer, now);
        }
        removed
    }

    /// Moves `peer` from the passive view to the active view (through `add_active`);
    /// returns whether it was passive.
    pub fn promote(&mut self, peer: PeerId, now: u64) -> (r: bool)
        requires
            old(self).wf(),
        ensures
            final(self).wf(),
            r == old(self).passive().contains(peer),
            !r ==> final(self).active() == old(self).active() && final(self).passive()
                == old(self).passive() && final(self).detector() == old(self).detector(),
            r ==> final(self).active().contains(peer) && !final(self).passive().contains(peer),
            r ==> exists|evicted: Option<PeerId>| #[trigger]
                added_active(
                    old(self).active(),
                    old(self).passive(),
                    old(self).spec_active_degree(),
                    old(self).spec_passive_degree(),
                    peer,
                    evicted,
                    final(self).active(),
                    final(self).passive(),
                ),
            r ==> recorded(
                old(self).detector().states(),
                old(self).detector().tracked_len(),
                final(self).detector().states(),
                peer,
                (PeerState::Alive, now),
            ),
            final(self).detector().spec_suspect_timeout() == old(self).detector().spec_suspect_timeout(),
            final(self).spec_active_degree() == old(self).spec_active_degree(),
            final(self).spec_passive_degree() == old(self).spec_passive_degree(),
    {
        let ghost p0 = self.passive@;
        let ghost a0 = self.active@;
        let was_passive = remove_peer(&mut self.passive, &peer);
        if was_passive {
            let ghost rest = self.passive@;
            let evicted = self.add_active(peer, now);
            assert(forall|q: PeerId| #[trigger] rest.contains(q) == (p0.contains(q) && q != peer));
            assert(rest.len() == p0.len() - 1);
            assert(!rest.contains(peer));
            proof {
                if !a0.contains(peer) && a0.len() >= self.active_degree as nat {
                    let e = evicted->Some_0;
                    assert(forall|q: PeerId| #[trigger]
                        self.passive@.contains(q) == ((p0.contains(q) && q != peer) || (q == e
                            && p0.len() - 1 < self.passive_degree as nat)));
                }
                assert(added_active(
                    old(self).active(),
                    old(self).passive(),
                    old(self).spec_active_degree(),
                    old(self).spec_passive_degree(),
                    peer,
                    evicted,
                    self.active(),
                    self.passive(),
                ));
            }
        }
        was_passive
    }
    /// Marks `peer` alive as of `now` (an inbound message was seen from it).
    pub fn mark_alive(&mut self, peer: PeerId, now: u64)
        requires
            old(self).wf(),
        ensures
            final(self).wf(),
            recorded(
                old(self).detector().states(),
                old(self).detector().tracked_len(),
                final(self).detector().states(),
                peer,
                (PeerState::Alive, now),
            ),
            final(self).detector().spec_suspect_timeout() == old(self).detector().spec_suspect_timeout(),
            final(self).active() == old(self).active(),
            final(self).passive() == old(self).passive(),
            final(self).spec_active_degree() == old(self).spec_active_degree(),
            final(self).spec_passive_degree() == old(self).spec_passive_degree(),
    {
        self.swim.mark_alive(peer, now);
    }

    /// Marks `peer` suspect as of `now` if it is alive (a probe went unanswered).
    pub fn mark_suspect(&mut self, peer: PeerId, now: u64)
        requires
            old(self).wf(),
        ensures
            final(self).wf(),
            final(self).detector().states() == if old(self).detector().states().contains_key(peer)
                && old(self).detector().states()[peer].0 == PeerState::Alive {
                old(self).detector().states().insert(peer, (PeerState::Suspect, now))
            } else {
                old(self).detector().states()
            },
            final(self).detector().spec_suspect_timeout() == old(self).detector().spec_suspect_timeout(),
            final(self).active() == old(self).active(),
            final(self).passive() == old(self).passive(),
            final(self).spec_active_degree() == old(self).spec_active_degree(),
            final(self).spec_passive_degree() == old(self).spec_passive_degree(),
    {
        self.swim.mark_suspect(peer, now);
    }

    /// The active peers other than `peer`, in order.
    fn active_except(&self, peer: &PeerId) -> (r: Vec<PeerId>)
        requires
            self.wf(),
        ensures
            r@.no_duplicates(),
            forall|q: PeerId| #[trigger] r@.contains(q) == (self.active().contains(q) && q != *peer),
    {
        let mut r: Vec<PeerId> = Vec::new();
        let mut i: usize = 0;
        while i < self.active.len()
            invariant
                self.wf(),
                0 <= i <= self.active@.len(),
                r@.no_duplicates(),
                forall|q: PeerId| #[trigger] r@.contains(q) == (self.active@.take(i as int).contains(q) && q != *peer),
            decreases self.active@.len() - i,
        {
            let q = self.active[i];
            let ghost t0 = self.active@.take(i as int);
            let ghost t1 = self.active@.take(i + 1);
            assert(t1 =~= t0.push(q));
            assert(!t0.contains(q)) by {
                if t0.contains(q) {
                    let k = choose|k: int| 0 <= k < t0.len() && t0[k] == q;
                    assert(self.active@[k] == self.active@[i as int]);
                }
            }
            assert forall|x: PeerId| #[trigger] t1.contains(x) == (t0.contains(x) || x == q) by {
                if t1.contains(x) {
                    let k = choose|k: int| 0 <= k < t1.len() && t1[k] == x;
                    if k < i {
                        assert(t0[k] == x);
                    }
                }
                if t0.contains(x) {
                    let k = choose|k: int| 0 <= k < t0.len() && t0[k] == x;
                    assert(t1[k] == x);
                }
                if x == q {
                    assert(t1[i as int] == x);
                }
            }
            if !(q == *peer) {
                proof {
                    crate::peers::lemma_push_new(r@, q);
                }
                r.push(q);
            }
            i = i + 1;
        }
        assert(self.active@.take(self.active@.len() as int) =~= self.active@);
        r
    }

    /// Handles a JOIN from `joiner`: it enters the active view (see `added_active`;
    /// the evicted peer, if any, is returned first), and every other active peer is
    /// returned, each to be sent a FORWARD_JOIN for it with walk length
    /// `ACTIVE_WALK_LENGTH`.
    pub fn handle_join(&mut self, joiner: PeerId, now: u64) -> (r: (Option<PeerId>, Vec<PeerId>))
        requires
            old(self).wf(),
        ensures
            final(self).wf(),
            added_active(
                old(self).active(),
                old(self).passive(),
                old(self).spec_active_degree(),
                old(self).spec_passive_degree(),
                joiner,
                r.0,
                final(self).active(),
                final(self).passive(),
            ),
            recorded(
                old(self).detector().states(),
                old(self).detector().tracked_len(),
                final(self).detector().states(),
                joiner,
                (PeerState::Alive, now),
            ),
            r.1@.no_duplicates(),
            forall|q: PeerId| #[trigger] r.1@.contains(q) == (final(self).active().contains(q) && q != joiner),
            final(self).detector().spec_suspect_timeout() == old(self).detector().spec_suspect_timeout(),
            final(self).spec_active_degree() == old(self).spec_active_degree(),
            final(self).spec_passive_degree() == old(self).spec_passive_degree(),
    {
        let evicted = self.add_active(joiner, now);
        let others = self.active_except(&joiner);
        (evicted, others)
    }

    /// Handles a FORWARD_JOIN for `joiner` with remaining walk length `ttl`, received
    /// from `from`. When the walk ends here (`ttl` is 0, or no active peer other than
    /// `from` and `joiner` is left), the joiner enters the active view and `None` is
    /// returned. Otherwise the walk goes on to the first such peer with `ttl - 1`,
    /// and at `PASSIVE_WALK_LENGTH` the joiner is also merged into the passive view.
    pub fn handle_forward_join(&mut self, joiner: PeerId, ttl: usize, from: PeerId, now: u64) -> (r: Option<(PeerId, usize)>)
        requires
            old(self).wf(),
        ensures
            final(self).wf(),
            final(self).spec_active_degree() == old(self).spec_active_degree(),
            final(self).spec_passive_degree() == old(self).spec_passive_degree(),
            final(self).detector().spec_suspect_timeout() == old(self).detector().spec_suspect_timeout(),
            match r {
                None => {
                    &&& (ttl == 0 || forall|q: PeerId| #[trigger] old(self).active().contains(q) ==> q == from || q == joiner)
                    &&& exists|evicted: Option<PeerId>| #[trigger] added_active(
                        old(self).active(),
                        old(self).passive(),
                        old(self).spec_active_degree(),
                        old(self).spec_passive_degree(),
                        joiner,
                        evicted,
                        final(self).active(),
                        final(self).passive(),
                    )
                    &&& recorded(
                old(self).detector().states(),
                old(self).detector().tracked_len(),
                final(self).detector().states(),
                joiner,
                (PeerState::Alive, now),
            )
                },
                Some((next, next_ttl)) => {
                    &&& ttl > 0
                    &&& next_ttl == ttl - 1
                    &&& old(self).active().contains(next) && next != from && next != joiner
                    &&& final(self).active() == old(self).active()
                    &&& final(self).detector() == old(self).detector()
                    &&& final(self).passive() == if ttl == PASSIVE_WALK_LENGTH {
                        merged_passive(old(self).active(), old(self).passive(), seq![joiner], old(self).spec_passive_degree())
                    } else {
                        old(self).passive()
                    }
                },
            },
    {
        let mut next: Option<PeerId> = None;
        if ttl > 0 {
            let mut i: usize = 0;
            while i < self.active.len() && next.is_none()
                invariant
                    0 <= i <= self.active@.len(),
                    next matches Some(q) ==> self.active@.contains(q) && q != from && q != joiner,
                    next is None ==> forall|k: int| 0 <= k < i ==> (#[trigger] self.active@[k] == from || self.active@[k] == joiner),
                decreases self.active@.len() - i,
            {
                let q = self.active[i];
                if !(q == from) && !(q == joiner) {
                    next = Some(q);
                }
                i = i + 1;
            }
            proof {
                if next is None {
                    assert forall|q: PeerId| #[trigger] self.active@.contains(q) implies q == from || q == joiner by {
                        let k = choose|k: int| 0 <= k < self.active@.len() && self.active@[k] == q;
                    }
                }
            }
        }
        match next {
            Some(q) => {
                if ttl == PASSIVE_WALK_LENGTH {
                    let mut one: Vec<PeerId> = Vec::new();
                    one.push(joiner);
                    assert(one@ =~= seq![joiner]);
                    self.merge_passive(&one);
                }
                Some((q, ttl - 1))
            },
            None => {
                let ghost a0 = self.active();
                let ghost p0 = self.passive();
                let evicted = self.add_active(joiner, now);
                assert(added_active(
                    a0,
                    p0,
                    old(self).spec_active_degree(),
                    old(self).spec_passive_degree(),
                    joiner,
                    evicted,
                    self.active(),
                    self.passive(),
                ));
                None
            },
        }
    }

    /// One probe period at `now`: the peer whose probe went unanswered, if any, is
    /// marked suspect; then the peer to probe next is drawn among the alive peers
    /// with the random number `draw` (see `SwimDetector::probe_target_at`).
    pub fn probe_tick(&mut self, unanswered: Option<PeerId>, draw: u64, now: u64) -> (r: Option<PeerId>)
        requires
            old(self).wf(),
        ensures
            final(self).wf(),
            match unanswered {
                None => final(self).detector() == old(self).detector(),
                Some(p) => final(self).detector().states() == if old(self).detector().states().contains_key(p)
                    && old(self).detector().states()[p].0 == PeerState::Alive {
                    old(self).detector().states().insert(p, (PeerState::Suspect, now))
                } else {
                    old(self).detector().states()
                },
            },
            r == if final(self).detector().alive_peers().len() == 0 {
                None::<PeerId>
            } else {
                Some(final(self).detector().alive_peers()[(draw as int) % (final(self).detector().alive_peers().len() as int)])
            },
            final(self).detector().spec_suspect_timeout() == old(self).detector().spec_suspect_timeout(),
            final(self).active() == old(self).active(),
            final(self).passive() == old(self).passive(),
            final(self).spec_active_degree() == old(self).spec_active_degree(),
            final(self).spec_passive_degree() == old(self).spec_passive_degree(),
    {
        match unanswered {
            Some(p) => self.swim.mark_suspect(p, now),
            None => {},
        }
        self.swim.probe_target_at(draw)
    }

    /// The suspect-timeout sweep at `now`: suspects whose suspicion is older than the
    /// timeout become dead; they are returned, for `handle_peer_dead`.
    pub fn expire_suspects(&mut self, now: u64) -> (r: Vec<PeerId>)
        requires
            old(self).wf(),
        ensures
            final(self).wf(),
            final(self).detector().states().dom() == old(self).detector().states().dom(),
            forall|p: PeerId| #[trigger]
                old(self).detector().states().contains_key(p) ==> final(self).detector().states()[p]
                    == if suspect_expired(
                    old(self).detector().states()[p],
                    now,
                    old(self).detector().spec_suspect_timeout(),
                ) {
                    (PeerState::Dead, now)
                } else {
                    old(self).detector().states()[p]
                },
            forall|p: PeerId|
                r@.contains(p) <==> (old(self).detector().states().contains_key(p) && suspect_expired(
                    old(self).detector().states()[p],
                    now,
                    old(self).detector().spec_suspect_timeout(),
                )),
            final(self).detector().spec_suspect_timeout() == old(self).detector().spec_suspect_timeout(),
            final(self).active() == old(self).active(),
            final(self).passive() == old(self).passive(),
            final(self).spec_active_degree() == old(self).spec_active_degree(),
            final(self).spec_passive_degree() == old(self).spec_passive_degree(),
    {
        self.swim.expire_suspects(now)
    }

    /// Refills the active view from the passive view up to `MIN_ACTIVE_DEGREE`,
    /// passing over passive peers the detector holds dead.
    pub fn maintain_degrees(&mut self)
        requires
            old(self).wf(),
        ensures
            final(self).wf(),
            healed(
                old(self).active(),
                old(self).passive(),
                |q: PeerId| false,
                |q: PeerId| is_dead(final(self).detector().states(), q),
                final(self).active(),
                final(self).passive(),
            ),
            old(self).active().len() >= MIN_ACTIVE_DEGREE ==> final(self).active() == old(self).active() && final(self).passive() == old(self).passive(),
            final(self).detector() == old(self).detector(),
            final(self).spec_active_degree() == old(self).spec_active_degree(),
            final(self).spec_passive_degree() == old(self).spec_passive_degree(),
    {
        let ghost a0 = self.active@;
        let ghost p0 = self.passive@;
        let ghost s0 = self.swim;
        let ghost ad = self.active_degree;
        let ghost pd = self.passive_degree;
        let mut i: usize = 0;
        while self.active.len() < MIN_ACTIVE_DEGREE && i < self.passive.len()
            invariant
                self.swim == s0,
                self.active_degree == ad,
                self.passive_degree == pd,
                self.swim.wf(),
                1 <= self.active_degree <= MAX_ACTIVE_DEGREE,
                self.passive_degree <= MAX_PASSIVE_DEGREE,
                self.active@.no_duplicates(),
                self.passive@.no_duplicates(),
                forall|p: PeerId| self.active@.contains(p) ==> !self.passive@.contains(p),
                self.active@.len() <= MAX_ACTIVE_DEGREE,
                self.passive@.len() <= p0.len(),
                p0.len() <= self.passive_degree,
                0 <= i <= self.passive@.len(),
                forall|k: int| 0 <= k < i ==> is_dead(s0.states(), #[trigger] self.passive@[k]),
                forall|q: PeerId|
                    #![trigger self.active@.contains(q)] #![trigger self.passive@.contains(q)] (self.active@.contains(q) || self.passive@.contains(q))
                        == (a0.contains(q) || p0.contains(q)),
                forall|q: PeerId| a0.contains(q) ==> #[trigger] self.active@.contains(q),
                forall|q: PeerId| #[trigger]
                    self.active@.contains(q) && !a0.contains(q) ==> self.active@.len()
                        <= MIN_ACTIVE_DEGREE && !is_dead(s0.states(), q),
                a0.len() >= MIN_ACTIVE_DEGREE ==> self.active@ == a0 && self.passive@ == p0,
            decreases self.passive@.len() - i,
        {
            let q = self.passive[i];
            let dead = match self.swim.get_state(&q) {
                Some(PeerState::Dead) => true,
                _ => false,
            };
            if dead {
                i = i + 1;
            } else {
                let ghost pb = self.passive@;
                proof {
                    crate::peers::lemma_remove_index(self.passive@, i as int);
                }
                self.passive.remove(i);
                insert_peer(&mut self.active, q);
                proof {
                    assert forall|k: int| 0 <= k < i implies is_dead(s0.states(), #[trigger] self.passive@[k]) by {
                        assert(self.passive@[k] == pb[k]);
                    }
                }
            }
        }
        proof {
            if self.active@.len() < MIN_ACTIVE_DEGREE {
                assert forall|q: PeerId| #[trigger] self.passive@.contains(q) implies is_dead(s0.states(), q) by {
                    let k = choose|k: int| 0 <= k < self.passive@.len() && self.passive@[k] == q;
                }
            }
        }
    }

    /// Handles a dead notification: marks `peer` dead, drops it from both views and
    /// refills the active view.
    pub fn handle_peer_dead(&mut self, peer: PeerId, now: u64)
        requires
            old(self).wf(),
        ensures
            final(self).wf(),
            !final(self).active().contains(peer),
            !final(self).passive().contains(peer),
            healed(
                old(self).active(),
                old(self).passive(),
                |q: PeerId| q == peer,
                |q: PeerId| is_dead(final(self).detector().states(), q),
                final(self).active(),
                final(self).passive(),
            ),
            recorded(
                old(self).detector().states(),
                old(self).detector().tracked_len(),
                final(self).detector().states(),
                peer,
                (PeerState::Dead, now),
            ),
            final(self).detector().spec_suspect_timeout() == old(self).detector().spec_suspect_timeout(),
            final(self).spec_active_degree() == old(self).spec_active_degree(),
            final(self).spec_passive_degree() == old(self).spec_passive_degree(),
    {
        remove_peer(&mut self.active, &peer);
        remove_peer(&mut self.passive, &peer);
        self.swim.mark_dead(peer, now);
        self.maintain_degrees();
    }

    /// One maintenance tick at `now`: expired suspects become dead, every dead peer
    /// leaves both views, and the active view is refilled. Returns all dead peers.
    pub fn maintenance_tick(&mut self, now: u64) -> (r: Vec<PeerId>)
        requires
            old(self).wf(),
        ensures
            final(self).wf(),
            final(self).detector().states().dom() == old(self).detector().states().dom(),
            forall|p: PeerId| #[trigger]
                old(self).detector().states().contains_key(p) ==> final(self).detector().states()[p]
                    == if suspect_expired(
                    old(self).detector().states()[p],
                    now,
                    old(self).detector().spec_suspect_timeout(),
                ) {
                    (PeerState::Dead, now)
                } else {
                    old(self).detector().states()[p]
                },
            forall|p: PeerId|
                r@.contains(p) <==> (final(self).detector().states().contains_key(p)
                    && final(self).detector().states()[p].0 == PeerState::Dead),
            forall|p: PeerId| #[trigger]
                r@.contains(p) ==> !final(self).active().contains(p) && !final(self).passive().contains(p),
            healed(
                old(self).active(),
                old(self).passive(),
                |q: PeerId| r@.contains(q),
                |q: PeerId| is_dead(final(self).detector().states(), q),
                final(self).active(),
                final(self).passive(),
            ),
            final(self).detector().spec_suspect_timeout() == old(self).detector().spec_suspect_timeout(),
            final(self).spec_active_degree() == old(self).spec_active_degree(),
            final(self).spec_passive_degree() == old(self).spec_passive_degree(),
    {
        let ghost a0 = self.active@;
        let ghost p0 = self.passive@;
        self.swim.expire_suspects(now);
        let dead = self.swim.get_peers_in_state(PeerState::Dead);
        let ghost s1 = self.swim;
        let ghost ad = self.active_degree;
        let ghost pd = self.passive_degree;
        let mut i: usize = 0;
        while i < dead.len()
            invariant
                self.swim == s1,
                self.active_degree == ad,
                self.passive_degree == pd,
                self.wf(),
                0 <= i <= dead@.len(),
                forall|q: PeerId|
                    #![trigger self.active@.contains(q)] #![trigger self.passive@.contains(q)] (self.active@.contains(q) || self.passive@.contains(q))
                        == ((a0.contains(q) || p0.contains(q)) && !dead@.take(i as int).contains(q)),
                forall|q: PeerId|
                    a0.contains(q) && !dead@.take(i as int).contains(q)
                        ==> #[trigger] self.active@.contains(q),
                forall|q: PeerId| #[trigger] self.active@.contains(q) ==> a0.contains(q),
            decreases dead@.len() - i,
        {
            let d = dead[i];
            remove_peer(&mut self.active, &d);
            remove_peer(&mut self.passive, &d);
            proof {
                let t0 = dead@.take(i as int);
                let t1 = dead@.take(i + 1);
                assert(t1 =~= t0.push(d));
                assert forall|q: PeerId| #[trigger] t1.contains(q) == (t0.contains(q) || q == d) by {
                    if t0.contains(q) {
                        let k = choose|k: int| 0 <= k < t0.len() && t0[k] == q;
                        assert(t1[k] == q);
                    }
                    if q == d {
                        assert(t1[i as int] == q);
                    }
                    if t1.contains(q) {
                        let k = choose|k: int| 0 <= k < t1.len() && t1[k] == q;
                        if k < i {
                            assert(t0[k] == q);
                        }
                    }
                }
            }
            i = i + 1;
        }
        assert(dead@.take(dead@.len() as int) =~= dead@);
        self.maintain_degrees();
        dead
    }

    /// The active peer to shuffle with next, if any.
    pub fn shuffle_target(&self) -> (r: Option<PeerId>)
        ensures
            match r {
                Some(t) => self.active().len() > 0 && t == self.active()[0],
                None => self.active().len() == 0,
            },
    {
        if self.active.len() == 0 {
            None
        } else {
            Some(self.active[0])
        }
    }

    /// A sample of at most `size` peers of the passive view.
    pub fn shuffle_sample(&self, size: usize) -> (r: Vec<PeerId>)
        ensures
            r@ == self.passive().take(
                if size < self.passive().len() {
                    size as int
                } else {
                    self.passive().len() as int
                },
            ),
    {
        let n = if size < self.passive.len() {
            size
        } else {
            self.passive.len()
        };
        let mut r: Vec<PeerId> = Vec::new();
        let mut i: usize = 0;
        while i < n
            invariant
                n <= self.passive@.len(),
                0 <= i <= n,
                r@ == self.passive@.take(i as int),
            decreases n - i,
        {
            r.push(self.passive[i]);
            assert(self.passive@.take(i + 1) =~= self.passive@.take(i as int).push(self.passive@[i as int]));
            i = i + 1;
        }
        r
    }

    /// Number of passive peers offered in one shuffle: a quarter of the passive
    /// degree, at least one.
    pub open spec fn spec_exchange_size(&self) -> nat {
        if self.spec_passive_degree() / 4 >= 1 {
            self.spec_passive_degree() / 4
        } else {
            1
        }
    }

    /// Starts a shuffle: the target peer and the sample of the passive view to send it,
    /// or `None` when the active view is empty.
    pub fn shuffle(&self) -> (r: Option<(PeerId, Vec<PeerId>)>)
        ensures
            match r {
                Some((t, sample)) => {
                    &&& self.active().len() > 0
                    &&& t == self.active()[0]
                    &&& sample@ == self.passive().take(
                        if self.spec_exchange_size() < self.passive().len() {
                            self.spec_exchange_size() as int
                        } else {
                            self.passive().len() as int
                        },
                    )
                },
                None => self.active().len() == 0,
            },
    {
        match self.shuffle_target() {
            None => None,
            Some(t) => {
                let quarter = self.passive_degree / 4;
                let size = if quarter >= 1 {
                    quarter
                } else {
                    1
                };
                Some((t, self.shuffle_sample(size)))
            },
        }
    }

    /// Merges advertised peers into the passive view, in order, up to its capacity.
    pub fn merge_passive(&mut self, peers: &Vec<PeerId>)
        requires
            old(self).wf(),
        ensures
            final(self).wf(),
            final(self).passive() == merged_passive(
                old(self).active(),
                old(self).passive(),
                peers@,
                old(self).spec_passive_degree(),
            ),
            final(self).active() == old(self).active(),
            final(self).detector() == old(self).detector(),
            final(self).spec_active_degree() == old(self).spec_active_degree(),
            final(self).spec_passive_degree() == old(self).spec_passive_degree(),
    {
        let ghost p0 = self.passive@;
        let ghost a0 = self.active@;
        let ghost s0 = self.swim;
        let ghost ad = self.active_degree;
        let ghost pd = self.passive_degree;
        let mut i: usize = 0;
        while i < peers.len()
            invariant
                self.active@ == a0,
                self.swim == s0,
                self.active_degree == ad,
                self.passive_degree == pd,
                self.wf(),
                0 <= i <= peers@.len(),
                self.passive@ == merged_passive(
                    self.active@,
                    p0,
                    peers@.take(i as int),
                    self.passive_degree as nat,
                ),
            decreases peers@.len() - i,
        {
            let q = peers[i];
            assert(peers@.take(i + 1).drop_last() =~= peers@.take(i as int));
            assert(peers@.take(i + 1).last() == q);
            if !holds(&self.active, &q) && !holds(&self.passive, &q) && self.passive.len()
                < self.passive_degree {
                insert_peer(&mut self.passive, q);
                assert(self.passive@ =~= merged_passive(
                    self.active@,
                    p0,
                    peers@.take(i + 1),
                    self.passive_degree as nat,
                ));
            }
            i = i + 1;
        }
        assert(peers@.take(peers@.len() as int) =~= peers@);
    }

    /// Answers a shuffle: replies with a sample of the passive view as large as the
    /// one received, then merges the received peers.
    pub fn handle_shuffle(&mut self, peers: &Vec<PeerId>) -> (r: Vec<PeerId>)
        requires
            old(self).wf(),
        ensures
            final(self).wf(),
            r@ == old(self).passive().take(
                if peers@.len() < old(self).passive().len() {
                    peers@.len() as int
                } else {
                    old(self).passive().len() as int
                },
            ),
            final(self).passive() == merged_passive(
                old(self).active(),
                old(self).passive(),
                peers@,
                old(self).spec_passive_degree(),
            ),
            final(self).active() == old(self).active(),
            final(self).detector() == old(self).detector(),
            final(self).spec_active_degree() == old(self).spec_active_degree(),
            final(self).spec_passive_degree() == old(self).spec_passive_degree(),
    {
        let reply = self.shuffle_sample(peers.len());
        self.merge_passive(peers);
        reply
    }
}

} // verus!
