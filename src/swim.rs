//! SWIM-style failure detector: per-peer liveness with suspicion timeouts.

use vstd::prelude::*;
use crate::types::PeerId;

verus! {

/// Default interval between probes, in seconds.
pub const SWIM_PROBE_INTERVAL_SECS: u64 = 1;

/// Default time a suspect has to refute suspicion, in seconds.
pub const SWIM_SUSPECT_TIMEOUT_SECS: u64 = 3;

/// Maximum number of peers the detector tracks.
pub const MAX_TRACKED_PEERS: usize = 100_000;

/// Messages of the probing protocol.
#[derive(Clone, Copy, Debug, PartialEq, Eq, Structural)]
pub enum SwimMessage {
    Ping,
    Ack,
}

/// Liveness of a peer as seen by the failure detector.
#[derive(Clone, Copy, Debug, PartialEq, Eq, Structural)]
pub enum PeerState {
    Alive,
    Suspect,
    Dead,
}

/// State of one tracked peer and the time (milliseconds) it was last changed.
#[derive(Clone, Copy, Debug)]
pub struct SwimEntry {
    pub peer: PeerId,
    pub state: PeerState,
    pub last_update: u64,
}

/// No peer is tracked twice.
pub open spec fn entries_unique(s: Seq<SwimEntry>) -> bool {
    forall|i: int, j: int| 0 <= i < j < s.len() ==> s[i].peer != s[j].peer
}

/// The tracked peers as a map from peer to (state, time of last change).
pub open spec fn entry_map(s: Seq<SwimEntry>) -> Map<PeerId, (PeerState, u64)> {
    Map::new(
        |p: PeerId| exists|i: int| 0 <= i < s.len() && s[i].peer == p,
        |p: PeerId|
            {
                let i = choose|i: int| 0 <= i < s.len() && s[i].peer == p;
                (s[i].state, s[i].last_update)
            },
    )
}

proof fn lemma_entry_at(s: Seq<SwimEntry>, i: int)
    requires
        entries_unique(s),
        0 <= i < s.len(),
    ensures
        entry_map(s).contains_key(s[i].peer),
        entry_map(s)[s[i].peer] == (s[i].state, s[i].last_update),
{
    let p = s[i].peer;
    assert(exists|k: int| 0 <= k < s.len() && s[k].peer == p);
    let k = choose|k: int| 0 <= k < s.len() && s[k].peer == p;
    if k != i {
        if k < i {
            assert(s[k].peer != s[i].peer);
        } else {
            assert(s[i].peer != s[k].peer);
        }
    }
}

proof fn lemma_entry_update(s: Seq<SwimEntry>, i: int, e: SwimEntry)
    requires
        entries_unique(s),
        0 <= i < s.len(),
        e.peer == s[i].peer,
    ensures
        entries_unique(s.update(i, e)),
        entry_map(s.update(i, e)) == entry_map(s).insert(e.peer, (e.state, e.last_update)),
{
    let t = s.update(i, e);
    assert(entries_unique(t)) by {
        assert forall|a: int, b: int| 0 <= a < b < t.len() implies t[a].peer != t[b].peer by {
            assert(s[a].peer != s[b].peer);
        }
    }
    let m = entry_map(s).insert(e.peer, (e.state, e.last_update));
    assert forall|p: PeerId| #[trigger] entry_map(t).contains_key(p) == m.contains_key(p) by {
        if m.contains_key(p) && p != e.peer {
            let k = choose|k: int| 0 <= k < s.len() && s[k].peer == p;
            assert(t[k].peer == p);
        }
        if entry_map(t).contains_key(p) {
            let k = choose|k: int| 0 <= k < t.len() && t[k].peer == p;
            if k != i {
                assert(s[k].peer == p);
            }
        }
        if p == e.peer {
            assert(t[i].peer == p);
        }
    }
    assert forall|p: PeerId| #[trigger] m.contains_key(p) implies entry_map(t)[p] == m[p] by {
        assert(entry_map(t).contains_key(p));
        let k = choose|k: int| 0 <= k < t.len() && t[k].peer == p;
        lemma_entry_at(t, k);
        if p != e.peer {
            assert(k != i);
            lemma_entry_at(s, k);
        }
    }
    assert(entry_map(t) =~= m);
}

proof fn lemma_entry_push(s: Seq<SwimEntry>, e: SwimEntry)
    requires
        entries_unique(s),
        !entry_map(s).contains_key(e.peer),
    ensures
        entries_unique(s.push(e)),
        entry_map(s.push(e)) == entry_map(s).insert(e.peer, (e.state, e.last_update)),
{
    let t = s.push(e);
    assert forall|k: int| 0 <= k < s.len() implies s[k].peer != e.peer by {
        if s[k].peer == e.peer {
            assert(entry_map(s).contains_key(e.peer));
        }
    }
    assert(entries_unique(t)) by {
        assert forall|a: int, b: int| 0 <= a < b < t.len() implies t[a].peer != t[b].peer by {
            if b < s.len() {
                assert(s[a].peer != s[b].peer);
            }
        }
    }
    let m = entry_map(s).insert(e.peer, (e.state, e.last_update));
    assert forall|p: PeerId| #[trigger] entry_map(t).contains_key(p) == m.contains_key(p) by {
        if m.contains_key(p) && p != e.peer {
            let k = choose|k: int| 0 <= k < s.len() && s[k].peer == p;
            assert(t[k].peer == p);
        }
        if entry_map(t).contains_key(p) {
            let k = choose|k: int| 0 <= k < t.len() && t[k].peer == p;
            if k != s.len() {
                assert(s[k].peer == p);
            }
        }
        if p == e.peer {
            assert(t[s.len() as int].peer == p);
        }
    }
    assert forall|p: PeerId| #[trigger] m.contains_key(p) implies entry_map(t)[p] == m[p] by {
        assert(entry_map(t).contains_key(p));
        let k = choose|k: int| 0 <= k < t.len() && t[k].peer == p;
        lemma_entry_at(t, k);
        if p != e.peer {
            assert(k != s.len());
            lemma_entry_at(s, k);
        }
    }
    assert(entry_map(t) =~= m);
}

proof fn lemma_entry_remove(s: Seq<SwimEntry>, i: int)
    requires
        entries_unique(s),
        0 <= i < s.len(),
    ensures
        entries_unique(s.remove(i)),
        entry_map(s.remove(i)) == entry_map(s).remove(s[i].peer),
{
    let t = s.remove(i);
    let p0 = s[i].peer;
    assert(entries_unique(t)) by {
        assert forall|a: int, b: int| 0 <= a < b < t.len() implies t[a].peer != t[b].peer by {
            let a2 = if a < i { a } else { a + 1 };
            let b2 = if b < i { b } else { b + 1 };
            assert(s[a2].peer != s[b2].peer);
        }
    }
    let m = entry_map(s).remove(p0);
    assert forall|p: PeerId| #[trigger] entry_map(t).contains_key(p) == m.contains_key(p) by {
        if m.contains_key(p) {
            let k = choose|k: int| 0 <= k < s.len() && s[k].peer == p;
            assert(k != i);
            if k < i {
                assert(t[k].peer == p);
            } else {
                assert(t[k - 1].peer == p);
            }
        }
        if entry_map(t).contains_key(p) {
            let k = choose|k: int| 0 <= k < t.len() && t[k].peer == p;
            let k2 = if k < i { k } else { k + 1 };
            assert(s[k2].peer == p);
            assert(k2 != i);
            if k2 < i {
                assert(s[k2].peer != s[i].peer);
            } else {
                assert(s[i].peer != s[k2].peer);
            }
        }
    }
    assert forall|p: PeerId| #[trigger] m.contains_key(p) implies entry_map(t)[p] == m[p] by {
        assert(entry_map(t).contains_key(p));
        let k = choose|k: int| 0 <= k < t.len() && t[k].peer == p;
        lemma_entry_at(t, k);
        let k2 = if k < i { k } else { k + 1 };
        assert(s[k2] == t[k]);
        lemma_entry_at(s, k2);
    }
    assert(entry_map(t) =~= m);
}

/// A suspect whose suspicion began more than `timeout_secs` seconds before `now`
/// (times in milliseconds).
pub open spec fn suspect_expired(st: (PeerState, u64), now: u64, timeout_secs: u64) -> bool {
    st.0 == PeerState::Suspect && now >= st.1 && now - st.1 > timeout_secs * 1000
}

/// `new` is `old` (which tracks `old_len` peers) after recording `peer` in state
/// `v`: when a new peer arrives with `MAX_TRACKED_PEERS` tracked, the peer whose
/// state changed least recently is dropped to make room.
pub open spec fn recorded(
    old: Map<PeerId, (PeerState, u64)>,
    old_len: nat,
    new: Map<PeerId, (PeerState, u64)>,
    peer: PeerId,
    v: (PeerState, u64),
) -> bool {
    if old.contains_key(peer) || old_len < MAX_TRACKED_PEERS {
        new == old.insert(peer, v)
    } else {
        exists|e: PeerId|
            #![trigger old.remove(e)]
            {
                &&& old.contains_key(e)
                &&& forall|q: PeerId| #[trigger] old.contains_key(q) ==> old[e].1 <= old[q].1
                &&& new == old.remove(e).insert(peer, v)
            }
    }
}

/// The alive peers of `s`, in tracking order.
pub open spec fn alive_in(s: Seq<SwimEntry>) -> Seq<PeerId>
    decreases s.len(),
{
    if s.len() == 0 {
        Seq::empty()
    } else {
        let r = alive_in(s.drop_last());
        if s.last().state == PeerState::Alive {
            r.push(s.last().peer)
        } else {
            r
        }
    }
}

proof fn lemma_alive_in(s: Seq<SwimEntry>)
    ensures
        forall|p: PeerId| #[trigger] alive_in(s).contains(p) <==> exists|k: int|
            0 <= k < s.len() && s[k].peer == p && s[k].state == PeerState::Alive,
        entries_unique(s) ==> alive_in(s).no_duplicates(),
    decreases s.len(),
{
    if s.len() > 0 {
        let t = s.drop_last();
        lemma_alive_in(t);
        let r = alive_in(t);
        let e = s.last();
        assert forall|p: PeerId| #[trigger] alive_in(s).contains(p) <==> exists|k: int|
            0 <= k < s.len() && s[k].peer == p && s[k].state == PeerState::Alive by {
            if alive_in(s).contains(p) {
                if e.state == PeerState::Alive && p == e.peer {
                    assert(s[s.len() - 1].peer == p);
                } else {
                    if e.state == PeerState::Alive {
                        let j = choose|j: int| 0 <= j < alive_in(s).len() && alive_in(s)[j] == p;
                        assert(j < r.len());
                        assert(r[j] == p);
                    }
                    assert(r.contains(p));
                    let k = choose|k: int| 0 <= k < t.len() && t[k].peer == p && t[k].state == PeerState::Alive;
                    assert(s[k] == t[k]);
                }
            }
            if exists|k: int| 0 <= k < s.len() && s[k].peer == p && s[k].state == PeerState::Alive {
                let k = choose|k: int| 0 <= k < s.len() && s[k].peer == p && s[k].state == PeerState::Alive;
                if k == s.len() - 1 {
                    assert(alive_in(s)[alive_in(s).len() - 1] == p);
                } else {
                    assert(t[k] == s[k]);
                    assert(r.contains(p));
                    let j = choose|j: int| 0 <= j < r.len() && r[j] == p;
                    assert(alive_in(s)[j] == p);
                }
            }
        }
        if entries_unique(s) {
            assert(entries_unique(t)) by {
                assert forall|a: int, b: int| 0 <= a < b < t.len() implies t[a].peer != t[b].peer by {
                    assert(s[a].peer != s[b].peer);
                }
            }
            if e.state == PeerState::Alive {
                assert(!r.contains(e.peer)) by {
                    if r.contains(e.peer) {
                        let k = choose|k: int| 0 <= k < t.len() && t[k].peer == e.peer && t[k].state == PeerState::Alive;
                        assert(s[k].peer != s[s.len() - 1].peer);
                    }
                }
                assert forall|a: int, b: int| 0 <= a < b < alive_in(s).len() implies alive_in(s)[a] != alive_in(s)[b] by {
                    if b == r.len() {
                        assert(alive_in(s)[a] == r[a]);
                        assert(r.contains(r[a]));
                    } else {
                        assert(alive_in(s)[a] == r[a] && alive_in(s)[b] == r[b]);
                    }
                }
            }
        }
    }
}

/// SWIM failure detector: tracks the liveness of every known peer.
pub struct SwimDetector {
    entries: Vec<SwimEntry>,
    probe_period: u64,
    suspect_timeout: u64,
}

impl SwimDetector {
    /// Every peer is tracked at most once.
    pub closed spec fn wf(&self) -> bool {
        &&& entries_unique(self.entries@)
        &&& self.entries@.len() <= MAX_TRACKED_PEERS
    }

    /// Number of tracked peers.
    pub closed spec fn tracked_len(&self) -> nat {
        self.entries@.len()
    }

    /// The tracked peers with their state and time of last change.
    pub closed spec fn states(&self) -> Map<PeerId, (PeerState, u64)> {
        entry_map(self.entries@)
    }

    pub closed spec fn spec_probe_period(&self) -> u64 {
        self.probe_period
    }

    pub closed spec fn spec_suspect_timeout(&self) -> u64 {
        self.suspect_timeout
    }

    /// A detector that tracks no peer yet.
    pub fn new(probe_period: u64, suspect_timeout: u64) -> (r: SwimDetector)
        ensures
            r.wf(),
            r.states() == Map::<PeerId, (PeerState, u64)>::empty(),
            r.spec_probe_period() == probe_period,
            r.spec_suspect_timeout() == suspect_timeout,
    {
        let r = SwimDetector { entries: Vec::new(), probe_period, suspect_timeout };
        assert(r.states() =~= Map::<PeerId, (PeerState, u64)>::empty());
        r
    }

    fn find(&self, peer: &PeerId) -> (r: Option<usize>)
        requires
            self.wf(),
        ensures
            match r {
                Some(i) => i < self.entries@.len() && self.entries@[i as int].peer == *peer,
                None => !self.states().contains_key(*peer),
            },
    {
        let mut i: usize = 0;
        while i < self.entries.len()
            invariant
                0 <= i <= self.entries@.len(),
                forall|k: int| 0 <= k < i ==> self.entries@[k].peer != *peer,
            decreases self.entries@.len() - i,
        {
            if self.entries[i].peer == *peer {
                return Some(i);
            }
            i = i + 1;
        }
        None
    }

    /// Index of the entry changed least recently.
    fn stalest(&self) -> (r: usize)
        requires
            self.entries@.len() > 0,
        ensures
            r < self.entries@.len(),
            forall|k: int| 0 <= k < self.entries@.len() ==> self.entries@[r as int].last_update <= (#[trigger] self.entries@[k]).last_update,
    {
        let mut m: usize = 0;
        let mut i: usize = 1;
        while i < self.entries.len()
            invariant
                1 <= i <= self.entries@.len(),
                m < self.entries@.len(),
                forall|k: int| 0 <= k < i ==> self.entries@[m as int].last_update <= (#[trigger] self.entries@[k]).last_update,
            decreases self.entries@.len() - i,
        {
            if self.entries[i].last_update < self.entries[m].last_update {
                m = i;
            }
            i = i + 1;
        }
        m
    }

    /// Records `peer` in `state` at time `now`, whatever it was before.
    fn set_state(&mut self, peer: PeerId, state: PeerState, now: u64)
        requires
            old(self).wf(),
        ensures
            final(self).wf(),
            recorded(old(self).states(), old(self).tracked_len(), final(self).states(), peer, (state, now)),
            final(self).spec_probe_period() == old(self).spec_probe_period(),
            final(self).spec_suspect_timeout() == old(self).spec_suspect_timeout(),
    {
        let e = SwimEntry { peer, state, last_update: now };
        match self.find(&peer) {
            Some(i) => {
                proof {
                    lemma_entry_at(self.entries@, i as int);
                    lemma_entry_update(self.entries@, i as int, e);
                }
                self.entries.set(i, e);
            },
            None => {
                if self.entries.len() >= MAX_TRACKED_PEERS {
                    let m = self.stalest();
                    let ghost s0 = self.entries@;
                    let ghost gone = s0[m as int].peer;
                    proof {
                        lemma_entry_at(s0, m as int);
                        lemma_entry_remove(s0, m as int);
                    }
                    self.entries.remove(m);
                    proof {
                        lemma_entry_push(self.entries@, e);
                        let o = entry_map(s0);
                        assert forall|q: PeerId| #[trigger] o.contains_key(q) implies o[gone].1 <= o[q].1 by {
                            let k = choose|k: int| 0 <= k < s0.len() && s0[k].peer == q;
                            lemma_entry_at(s0, k);
                        }
                        assert(o.contains_key(gone));
                        assert(entry_map(self.entries@.push(e)) == o.remove(gone).insert(peer, (state, now)));
                    }
                }
                proof {
                    lemma_entry_push(self.entries@, e);
                }
                self.entries.push(e);
            },
        }
    }

    /// Marks `peer` alive as of `now` (an inbound message refutes any suspicion).
    pub fn mark_alive(&mut self, peer: PeerId, now: u64)
        requires
            old(self).wf(),
        ensures
            final(self).wf(),
            recorded(old(self).states(), old(self).tracked_len(), final(self).states(), peer, (PeerState::Alive, now)),
            final(self).spec_probe_period() == old(self).spec_probe_period(),
            final(self).spec_suspect_timeout() == old(self).spec_suspect_timeout(),
    {
        self.set_state(peer, PeerState::Alive, now);
    }

    /// Marks `peer` suspect as of `now`, but only if it is currently alive.
    pub fn mark_suspect(&mut self, peer: PeerId, now: u64)
        requires
            old(self).wf(),
        ensures
            final(self).wf(),
            final(self).states() == if old(self).states().contains_key(peer)
                && old(self).states()[peer].0 == PeerState::Alive {
                old(self).states().insert(peer, (PeerState::Suspect, now))
            } else {
                old(self).states()
            },
            final(self).spec_probe_period() == old(self).spec_probe_period(),
            final(self).spec_suspect_timeout() == old(self).spec_suspect_timeout(),
    {
        match self.find(&peer) {
            Some(i) => {
                proof {
                    lemma_entry_at(self.entries@, i as int);
                }
                if self.entries[i].state == PeerState::Alive {
                    let e = SwimEntry { peer, state: PeerState::Suspect, last_update: now };
                    proof {
                        lemma_entry_update(self.entries@, i as int, e);
                    }
                    self.entries.set(i, e);
                }
            },
            None => {},
        }
    }

    /// Marks `peer` dead as of `now`, unconditionally.
    pub fn mark_dead(&mut self, peer: PeerId, now: u64)
        requires
            old(self).wf(),
        ensures
            final(self).wf(),
            recorded(old(self).states(), old(self).tracked_len(), final(self).states(), peer, (PeerState::Dead, now)),
            final(self).spec_probe_period() == old(self).spec_probe_period(),
            final(self).spec_suspect_timeout() == old(self).spec_suspect_timeout(),
    {
        self.set_state(peer, PeerState::Dead, now);
    }

    /// The state of `peer`, or `None` when it is not tracked.
    pub fn get_state(&self, peer: &PeerId) -> (r: Option<PeerState>)
        requires
            self.wf(),
        ensures
            r == if self.states().contains_key(*peer) {
                Some(self.states()[*peer].0)
            } else {
                None::<PeerState>
            },
    {
        match self.find(peer) {
            Some(i) => {
                proof {
                    lemma_entry_at(self.entries@, i as int);
                }
                Some(self.entries[i].state)
            },
            None => None,
        }
    }

    /// Every tracked peer whose state is `state`, each once.
    pub fn get_peers_in_state(&self, state: PeerState) -> (r: Vec<PeerId>)
        requires
            self.wf(),
        ensures
            r@.no_duplicates(),
            forall|p: PeerId|
                r@.contains(p) <==> (self.states().contains_key(p) && self.states()[p].0
                    == state),
    {
        let mut r: Vec<PeerId> = Vec::new();
        let mut i: usize = 0;
        while i < self.entries.len()
            invariant
                self.wf(),
                0 <= i <= self.entries@.len(),
                r@.no_duplicates(),
                forall|p: PeerId|
                    r@.contains(p) <==> exists|k: int|
                        0 <= k < i && self.entries@[k].peer == p && self.entries@[k].state
                            == state,
            decreases self.entries@.len() - i,
        {
            let e = self.entries[i];
            if e.state == state {
                assert(!r@.contains(e.peer)) by {
                    if r@.contains(e.peer) {
                        let k = choose|k: int|
                            0 <= k < i && self.entries@[k].peer == e.peer
                                && self.entries@[k].state == state;
                        assert(self.entries@[k].peer != self.entries@[i as int].peer);
                    }
                }
                let ghost r0 = r@;
                r.push(e.peer);
                assert forall|p: PeerId|
                    r@.contains(p) <==> exists|k: int|
                        0 <= k < i + 1 && self.entries@[k].peer == p && self.entries@[k].state
                            == state by {
                    if exists|k: int|
                        0 <= k < i + 1 && self.entries@[k].peer == p && self.entries@[k].state
                            == state {
                        if p == e.peer {
                            assert(r@[r@.len() - 1] == p);
                        } else {
                            let k = choose|k: int|
                                0 <= k < i + 1 && self.entries@[k].peer == p
                                    && self.entries@[k].state == state;
                            assert(k != i);
                            assert(r0.contains(p));
                            let j = choose|j: int| 0 <= j < r0.len() && r0[j] == p;
                            assert(r@[j] == p);
                        }
                    }
                    if r@.contains(p) {
                        let j = choose|j: int| 0 <= j < r@.len() && r@[j] == p;
                        if j == r@.len() - 1 {
                            assert(self.entries@[i as int].peer == p);
                        } else {
                            assert(r0[j] == p);
                            assert(r0.contains(p));
                        }
                    }
                }
            }
            i = i + 1;
        }
        assert forall|p: PeerId|
            r@.contains(p) <==> (self.states().contains_key(p) && self.states()[p].0
                == state) by {
            if self.states().contains_key(p) {
                let k = choose|k: int| 0 <= k < self.entries@.len() && self.entries@[k].peer == p;
                lemma_entry_at(self.entries@, k);
            }
            if r@.contains(p) {
                let k = choose|k: int|
                    0 <= k < self.entries@.len() && self.entries@[k].peer == p
                        && self.entries@[k].state == state;
                lemma_entry_at(self.entries@, k);
            }
        }
        r
    }

    /// Stops tracking `peer`.
    pub fn remove_peer(&mut self, peer: &PeerId)
        requires
            old(self).wf(),
        ensures
            final(self).wf(),
            final(self).states() == old(self).states().remove(*peer),
            final(self).spec_probe_period() == old(self).spec_probe_period(),
            final(self).spec_suspect_timeout() == old(self).spec_suspect_timeout(),
    {
        match self.find(peer) {
            Some(i) => {
                proof {
                    lemma_entry_remove(self.entries@, i as int);
                }
                self.entries.remove(i);
            },
            None => {
                assert(self.states().remove(*peer) =~= self.states());
            },
        }
    }

    /// Interval between probes, in seconds.
    pub fn probe_period(&self) -> (r: u64)
        ensures
            r == self.spec_probe_period(),
    {
        self.probe_period
    }

    /// Time a suspect has to refute suspicion, in seconds.
    pub fn suspect_timeout(&self) -> (r: u64)
        ensures
            r == self.spec_suspect_timeout(),
    {
        self.suspect_timeout
    }
    /// The alive peers, in the order they were first tracked.
    pub closed spec fn alive_peers(&self) -> Seq<PeerId> {
        alive_in(self.entries@)
    }

    /// The alive peers are exactly the tracked peers in state `Alive`, each once.
    pub proof fn lemma_alive_peers(&self)
        requires
            self.wf(),
        ensures
            self.alive_peers().no_duplicates(),
            forall|p: PeerId| #[trigger] self.alive_peers().contains(p) <==> (self.states().contains_key(p)
                && self.states()[p].0 == PeerState::Alive),
    {
        lemma_alive_in(self.entries@);
        assert forall|p: PeerId| #[trigger] self.alive_peers().contains(p) <==> (self.states().contains_key(p)
            && self.states()[p].0 == PeerState::Alive) by {
            if self.states().contains_key(p) {
                let k = choose|k: int| 0 <= k < self.entries@.len() && self.entries@[k].peer == p;
                lemma_entry_at(self.entries@, k);
            }
            if self.alive_peers().contains(p) {
                let k = choose|k: int| 0 <= k < self.entries@.len() && self.entries@[k].peer == p
                    && self.entries@[k].state == PeerState::Alive;
                lemma_entry_at(self.entries@, k);
            }
        }
    }

    /// The peer to probe next for the random draw `draw`: the `draw % n`-th of the
    /// `n` alive peers, or `None` when no peer is alive.
    pub fn probe_target_at(&self, draw: u64) -> (r: Option<PeerId>)
        requires
            self.wf(),
        ensures
            r == if self.alive_peers().len() == 0 {
                None::<PeerId>
            } else {
                Some(self.alive_peers()[(draw as int) % (self.alive_peers().len() as int)])
            },
    {
        let mut alive: Vec<PeerId> = Vec::new();
        let mut i: usize = 0;
        while i < self.entries.len()
            invariant
                0 <= i <= self.entries@.len(),
                alive@ == alive_in(self.entries@.take(i as int)),
                alive@.len() <= i,
            decreases self.entries@.len() - i,
        {
            assert(self.entries@.take(i + 1).drop_last() =~= self.entries@.take(i as int));
            if self.entries[i].state == PeerState::Alive {
                alive.push(self.entries[i].peer);
            }
            i = i + 1;
        }
        assert(self.entries@.take(self.entries@.len() as int) =~= self.entries@);
        if alive.len() == 0 {
            None
        } else {
            let k = (draw % (alive.len() as u64)) as usize;
            Some(alive[k])
        }
    }

    /// Moves every suspect whose suspicion is older than the timeout to dead at `now`;
    /// returns those peers.
    pub fn expire_suspects(&mut self, now: u64) -> (r: Vec<PeerId>)
        requires
            old(self).wf(),
        ensures
            final(self).wf(),
            final(self).states().dom() == old(self).states().dom(),
            forall|p: PeerId| #[trigger]
                old(self).states().contains_key(p) ==> final(self).states()[p] == if suspect_expired(
                    old(self).states()[p],
                    now,
                    old(self).spec_suspect_timeout(),
                ) {
                    (PeerState::Dead, now)
                } else {
                    old(self).states()[p]
                },
            forall|p: PeerId|
                r@.contains(p) <==> (old(self).states().contains_key(p) && suspect_expired(
                    old(self).states()[p],
                    now,
                    old(self).spec_suspect_timeout(),
                )),
            final(self).spec_probe_period() == old(self).spec_probe_period(),
            final(self).spec_suspect_timeout() == old(self).spec_suspect_timeout(),
    {
        let ghost s0 = self.entries@;
        let ghost period = self.probe_period;
        let timeout = self.suspect_timeout;
        let mut r: Vec<PeerId> = Vec::new();
        let mut i: usize = 0;
        while i < self.entries.len()
            invariant
                entries_unique(s0),
                timeout == self.suspect_timeout,
                period == self.probe_period,
                self.entries@.len() == s0.len(),
                s0.len() <= MAX_TRACKED_PEERS,
                0 <= i <= s0.len(),
                forall|k: int| 0 <= k < s0.len() ==> #[trigger] self.entries@[k].peer == s0[k].peer,
                forall|k: int|
                    0 <= k < i ==> #[trigger] self.entries@[k] == if suspect_expired(
                        (s0[k].state, s0[k].last_update),
                        now,
                        timeout,
                    ) {
                        SwimEntry { peer: s0[k].peer, state: PeerState::Dead, last_update: now }
                    } else {
                        s0[k]
                    },
                forall|k: int| i <= k < s0.len() ==> #[trigger] self.entries@[k] == s0[k],
                forall|p: PeerId|
                    r@.contains(p) <==> exists|k: int|
                        0 <= k < i && s0[k].peer == p && suspect_expired(
                            (s0[k].state, s0[k].last_update),
                            now,
                            timeout,
                        ),
            decreases s0.len() - i,
        {
            let e = self.entries[i];
            if e.state == PeerState::Suspect && now >= e.last_update && (now - e.last_update) as u128
                > timeout as u128 * 1000 {
                let ghost r0 = r@;
                r.push(e.peer);
                self.entries.set(i, SwimEntry { peer: e.peer, state: PeerState::Dead, last_update: now });
                assert forall|p: PeerId|
                    r@.contains(p) <==> exists|k: int|
                        0 <= k < i + 1 && s0[k].peer == p && suspect_expired(
                            (s0[k].state, s0[k].last_update),
                            now,
                            timeout,
                        ) by {
                    if r@.contains(p) {
                        let j = choose|j: int| 0 <= j < r@.len() && r@[j] == p;
                        if j < r0.len() {
                            assert(r0[j] == p);
                            assert(r0.contains(p));
                        }
                    }
                    if exists|k: int|
                        0 <= k < i + 1 && s0[k].peer == p && suspect_expired(
                            (s0[k].state, s0[k].last_update),
                            now,
                            timeout,
                        ) {
                        let k = choose|k: int|
                            0 <= k < i + 1 && s0[k].peer == p && suspect_expired(
                                (s0[k].state, s0[k].last_update),
                                now,
                                timeout,
                            );
                        if k == i {
                            assert(r@[r@.len() - 1] == p);
                        } else {
                            assert(r0.contains(p));
                            let j = choose|j: int| 0 <= j < r0.len() && r0[j] == p;
                            assert(r@[j] == p);
                        }
                    }
                }
            }
            i = i + 1;
        }
        proof {
            let t = self.entries@;
            assert(entries_unique(t)) by {
                assert forall|a: int, b: int| 0 <= a < b < t.len() implies t[a].peer != t[b].peer by {
                    assert(t[a].peer == s0[a].peer);
                    assert(t[b].peer == s0[b].peer);
                }
            }
            assert forall|p: PeerId| #[trigger] entry_map(t).contains_key(p) == entry_map(s0).contains_key(p) by {
                if entry_map(t).contains_key(p) {
                    let k = choose|k: int| 0 <= k < t.len() && t[k].peer == p;
                    assert(s0[k].peer == p);
                }
                if entry_map(s0).contains_key(p) {
                    let k = choose|k: int| 0 <= k < s0.len() && s0[k].peer == p;
                    assert(t[k].peer == p);
                }
            }
            assert(entry_map(t).dom() =~= entry_map(s0).dom());
            assert forall|p: PeerId| #[trigger] entry_map(s0).contains_key(p) implies entry_map(t)[p] == if suspect_expired(
                    entry_map(s0)[p], now, timeout) {
                    (PeerState::Dead, now)
                } else {
                    entry_map(s0)[p]
                } by {
                let k = choose|k: int| 0 <= k < s0.len() && s0[k].peer == p;
                lemma_entry_at(s0, k);
                assert(t[k].peer == p);
                lemma_entry_at(t, k);
            }
            assert forall|p: PeerId|
                r@.contains(p) <==> (entry_map(s0).contains_key(p) && suspect_expired(
                    entry_map(s0)[p], now, timeout)) by {
                if entry_map(s0).contains_key(p) {
                    let k = choose|k: int| 0 <= k < s0.len() && s0[k].peer == p;
                    lemma_entry_at(s0, k);
                }
                if r@.contains(p) {
                    let k = choose|k: int|
                        0 <= k < s0.len() && s0[k].peer == p && suspect_expired(
                            (s0[k].state, s0[k].last_update), now, timeout);
                    lemma_entry_at(s0, k);
                }
            }
        }
        r
    }
}

} // verus!
