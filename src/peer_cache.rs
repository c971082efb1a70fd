//! In-memory bookkeeping of the peer cache: connection outcomes per peer, staleness,
//! the bootstrap order of viable peers, and capacity cleanup. Loading and saving the
//! cache file are left to the caller.

use vstd::prelude::*;
use crate::config::PeerCacheConfig;
use crate::types::PeerId;

verus! {

/// Default number of peers tried per bootstrap batch.
pub const DEFAULT_BATCH_SIZE: usize = 50;

/// Default number of concurrent connection attempts during bootstrap.
pub const DEFAULT_MAX_CONCURRENT: usize = 100;

/// Default number of successful connections a bootstrap stops at.
pub const DEFAULT_REQUIRED_CONNECTIONS: usize = 10;

/// What the cache knows of one peer; `last_seen` is in seconds since the Unix epoch.
#[derive(Clone, Debug)]
pub struct CachedPeer {
    pub peer_id: PeerId,
    pub addr: String,
    pub last_seen: u64,
    pub connection_attempts: u32,
    pub consecutive_failures: u32,
    pub successful_connections: u32,
}

/// A peer is stale after `max_failures` consecutive failures, or when it was last
/// seen more than `stale_timeout` seconds before `now` (or after `now`).
pub open spec fn is_stale_spec(p: CachedPeer, max_failures: u32, stale_timeout: u64, now: u64) -> bool {
    p.consecutive_failures >= max_failures || now < p.last_seen || now - p.last_seen > stale_timeout
}

/// `a` goes before `b` in bootstrap order: more successes first, then more recently seen.
pub open spec fn bootstrap_before(a: CachedPeer, b: CachedPeer) -> bool {
    a.successful_connections > b.successful_connections || (a.successful_connections
        == b.successful_connections && a.last_seen >= b.last_seen)
}

/// `p` after a successful connection at `now`.
pub open spec fn after_success(p: CachedPeer, now: u64) -> CachedPeer {
    CachedPeer {
        last_seen: now,
        consecutive_failures: 0,
        successful_connections: if p.successful_connections == u32::MAX {
            u32::MAX
        } else {
            (p.successful_connections + 1) as u32
        },
        connection_attempts: if p.connection_attempts == u32::MAX {
            u32::MAX
        } else {
            (p.connection_attempts + 1) as u32
        },
        ..p
    }
}

/// `p` after a failed connection.
pub open spec fn after_failure(p: CachedPeer) -> CachedPeer {
    CachedPeer {
        consecutive_failures: if p.consecutive_failures == u32::MAX {
            u32::MAX
        } else {
            (p.consecutive_failures + 1) as u32
        },
        connection_attempts: if p.connection_attempts == u32::MAX {
            u32::MAX
        } else {
            (p.connection_attempts + 1) as u32
        },
        ..p
    }
}

impl CachedPeer {
    /// Whether this peer is stale at `now`.
    pub fn is_stale(&self, max_failures: u32, stale_timeout: u64, now: u64) -> (r: bool)
        ensures
            r == is_stale_spec(*self, max_failures, stale_timeout, now),
    {
        self.consecutive_failures >= max_failures || now < self.last_seen || now - self.last_seen
            > stale_timeout
    }
}

/// The entry of the peer with id `id` in `s`.
pub open spec fn entry_of(s: Seq<CachedPeer>, id: PeerId) -> CachedPeer {
    s[choose|k: int| 0 <= k < s.len() && s[k].peer_id == id]
}

/// Number of entries of `s` that are not stale at `now`.
pub open spec fn viable_count(s: Seq<CachedPeer>, max_failures: u32, stale_timeout: u64, now: u64) -> nat
    decreases s.len(),
{
    if s.len() == 0 {
        0
    } else {
        viable_count(s.drop_last(), max_failures, stale_timeout, now) + if is_stale_spec(
            s.last(),
            max_failures,
            stale_timeout,
            now,
        ) {
            0nat
        } else {
            1nat
        }
    }
}

/// Some entry of `s` is for peer `id`.
pub open spec fn has_peer(s: Seq<CachedPeer>, id: PeerId) -> bool {
    exists|a: int| 0 <= a < s.len() && s[a].peer_id == id
}

/// No peer appears twice.
pub open spec fn peers_unique(s: Seq<CachedPeer>) -> bool {
    forall|i: int, j: int| 0 <= i < j < s.len() ==> s[i].peer_id != s[j].peer_id
}

/// The peers a bootstrap tries in the batch that starts at `start` of `viable`:
/// at most `batch_size` of them, and at most `max_concurrent`, in order.
pub fn bootstrap_batch(
    viable: &Vec<(PeerId, String)>,
    start: usize,
    batch_size: usize,
    max_concurrent: usize,
) -> (r: Vec<(PeerId, String)>)
    requires
        batch_size > 0,
    ensures
        r@.len() == if start >= viable@.len() {
            0
        } else {
            let left = viable@.len() - start;
            let n = if left < batch_size { left } else { batch_size as int };
            if n < max_concurrent { n } else { max_concurrent as int }
        },
        forall|i: int| 0 <= i < r@.len() ==> (#[trigger] r@[i]).0 == viable@[start + i].0 && r@[i].1@
            == viable@[start + i].1@,
{
    let mut r: Vec<(PeerId, String)> = Vec::new();
    if start >= viable.len() {
        return r;
    }
    let left = viable.len() - start;
    let n = if left < batch_size { left } else { batch_size };
    let n = if n < max_concurrent { n } else { max_concurrent };
    let mut i: usize = 0;
    while i < n
        invariant
            n <= viable@.len() - start,
            start < viable@.len(),
            viable@.len() <= usize::MAX,
            0 <= i <= n,
            r@.len() == i,
            forall|a: int| 0 <= a < i ==> (#[trigger] r@[a]).0 == viable@[start + a].0 && r@[a].1@
                == viable@[start + a].1@,
        decreases n - i,
    {
        let addr = viable[start + i].1.clone();
        r.push((viable[start + i].0, addr));
        i = i + 1;
    }
    r
}

/// Whether a bootstrap tries the batch at `start` of `viable_len` viable peers, having
/// made `connected` of the `required` connections: while peers are left and more
/// connections are wanted.
pub fn bootstrap_continues(start: usize, viable_len: usize, connected: usize, required: usize) -> (r: bool)
    ensures
        r == (start < viable_len && connected < required),
{
    start < viable_len && connected < required
}

/// Where the batch after the one at `start` begins.
pub fn bootstrap_next_start(start: usize, batch_size: usize) -> (r: usize)
    ensures
        r == if start + batch_size > usize::MAX { usize::MAX as int } else { start + batch_size },
{
    start.saturating_add(batch_size)
}

/// The peer cache with its settings.
pub struct PeerCache {
    config: PeerCacheConfig,
    peers: Vec<CachedPeer>,
}

impl PeerCache {
    pub closed spec fn peers(&self) -> Seq<CachedPeer> {
        self.peers@
    }

    pub closed spec fn spec_config(&self) -> PeerCacheConfig {
        self.config
    }

    pub closed spec fn wf(&self) -> bool {
        peers_unique(self.peers@)
    }

    /// An empty cache with settings `config`.
    pub fn new(config: PeerCacheConfig) -> (r: PeerCache)
        ensures
            r.wf(),
            r.peers() == Seq::<CachedPeer>::empty(),
            r.spec_config() == config,
    {
        PeerCache { config, peers: Vec::new() }
    }

    /// The cached peers.
    pub fn entries(&self) -> (r: &Vec<CachedPeer>)
        ensures
            r@ == self.peers(),
    {
        &self.peers
    }

    /// A cache with settings `config` holding `entries`; of several entries for one
    /// peer the first is kept.
    pub fn from_entries(config: PeerCacheConfig, entries: Vec<CachedPeer>) -> (r: PeerCache)
        ensures
            r.wf(),
            r.spec_config() == config,
            forall|p: CachedPeer| #[trigger] r.peers().contains(p) ==> entries@.contains(p),
            forall|k: int| 0 <= k < entries@.len() ==> has_peer(r.peers(), (#[trigger] entries@[k]).peer_id),
    {
        let mut cache = PeerCache::new(config);
        let ghost e0 = entries@;
        let mut rest = entries;
        let ghost mut i: int = 0;
        while rest.len() > 0
            invariant
                cache.wf(),
                cache.spec_config() == config,
                0 <= i <= e0.len(),
                rest@ == e0.subrange(i, e0.len() as int),
                forall|p: CachedPeer| #[trigger] cache.peers().contains(p) ==> e0.contains(p),
                forall|k: int| 0 <= k < i ==> exists|a: int|
                    0 <= a < cache.peers().len() && cache.peers()[a].peer_id == (#[trigger] e0[k]).peer_id,
            decreases rest@.len(),
        {
            let p = rest.remove(0);
            proof {
                assert(p == e0[i]);
            }
            let ghost c0 = cache.peers();
            match cache.position(&p.peer_id) {
                Some(j) => {
                    proof {
                        assert forall|k: int| 0 <= k < i + 1 implies exists|a: int|
                            0 <= a < cache.peers().len() && cache.peers()[a].peer_id == (#[trigger] e0[k]).peer_id by {
                            if k == i {
                                assert(cache.peers()[j as int].peer_id == e0[k].peer_id);
                            }
                        }
                    }
                },
                None => {
                    cache.append(p);
                    proof {
                        assert(cache.peers() == c0.push(e0[i]));
                        assert forall|q: CachedPeer| #[trigger] cache.peers().contains(q) implies e0.contains(q) by {
                            let a = choose|a: int| 0 <= a < cache.peers().len() && cache.peers()[a] == q;
                            if a < c0.len() {
                                assert(c0[a] == q);
                                assert(c0.contains(q));
                            } else {
                                assert(e0[i] == q);
                            }
                        }
                        assert forall|k: int| 0 <= k < i + 1 implies exists|a: int|
                            0 <= a < cache.peers().len() && cache.peers()[a].peer_id == (#[trigger] e0[k]).peer_id by {
                            if k < i {
                                let a = choose|a: int| 0 <= a < c0.len() && c0[a].peer_id == e0[k].peer_id;
                                assert(cache.peers()[a] == c0[a]);
                            } else {
                                assert(cache.peers()[c0.len() as int] == e0[k]);
                            }
                        }
                    }
                },
            }
            proof {
                i = i + 1;
            }
        }
        proof {
            assert(i == e0.len());
            assert forall|k: int| 0 <= k < entries@.len() implies has_peer(cache.peers(), (#[trigger] entries@[k]).peer_id) by {
                assert(entries@[k] == e0[k]);
                assert(0 <= k < i);
                let a = choose|a: int| 0 <= a < cache.peers().len() && cache.peers()[a].peer_id == e0[k].peer_id;
                assert(0 <= a < cache.peers().len() && cache.peers()[a].peer_id == e0[k].peer_id);
            }
        }
        cache
    }

    /// The settings.
    pub fn config(&self) -> (r: &PeerCacheConfig)
        ensures
            *r == self.spec_config(),
    {
        &self.config
    }

    fn position(&self, peer: &PeerId) -> (r: Option<usize>)
        ensures
            match r {
                Some(i) => i < self.peers@.len() && self.peers@[i as int].peer_id == *peer,
                None => forall|i: int| 0 <= i < self.peers@.len() ==> self.peers@[i].peer_id != *peer,
            },
    {
        let mut i: usize = 0;
        while i < self.peers.len()
            invariant
                0 <= i <= self.peers@.len(),
                forall|k: int| 0 <= k < i ==> self.peers@[k].peer_id != *peer,
            decreases self.peers@.len() - i,
        {
            if self.peers[i].peer_id == *peer {
                return Some(i);
            }
            i = i + 1;
        }
        None
    }

    /// Puts entry `p` back at position `i`.
    fn restore(&mut self, i: usize, p: CachedPeer)
        requires
            peers_unique(old(self).peers@.insert(i as int, p)),
            i <= old(self).peers@.len(),
        ensures
            final(self).wf(),
            final(self).peers() == old(self).peers().insert(i as int, p),
            final(self).spec_config() == old(self).spec_config(),
    {
        self.peers.insert(i, p);
    }

    fn append(&mut self, p: CachedPeer)
        requires
            old(self).wf(),
            forall|i: int| 0 <= i < old(self).peers@.len() ==> old(self).peers@[i].peer_id != p.peer_id,
        ensures
            final(self).wf(),
            final(self).peers() == old(self).peers().push(p),
            final(self).spec_config() == old(self).spec_config(),
    {
        self.peers.push(p);
        assert forall|a: int, b: int| 0 <= a < b < self.peers@.len() implies self.peers@[a].peer_id
            != self.peers@[b].peer_id by {
            if b < old(self).peers@.len() {
                assert(old(self).peers@[a].peer_id != old(self).peers@[b].peer_id);
            }
        }
    }

    /// Records a successful connection to `peer` at `addr` at `now`.
    pub fn mark_success(&mut self, peer: PeerId, addr: String, now: u64)
        requires
            old(self).wf(),
        ensures
            final(self).wf(),
            final(self).spec_config() == old(self).spec_config(),
            forall|i: int|
                0 <= i < old(self).peers().len() && old(self).peers()[i].peer_id == peer
                    ==> final(self).peers() == old(self).peers().update(i, after_success(old(self).peers()[i], now)),
            (forall|i: int| 0 <= i < old(self).peers().len() ==> old(self).peers()[i].peer_id != peer)
                ==> final(self).peers() == old(self).peers().push(
                CachedPeer {
                    peer_id: peer,
                    addr,
                    last_seen: now,
                    connection_attempts: 1,
                    consecutive_failures: 0,
                    successful_connections: 1,
                },
            ),
    {
        match self.position(&peer) {
            Some(i) => {
                let ghost s0 = self.peers@;
                let mut p = self.peers.remove(i);
                p.last_seen = now;
                p.consecutive_failures = 0;
                p.successful_connections = p.successful_connections.saturating_add(1);
                p.connection_attempts = p.connection_attempts.saturating_add(1);
                proof {
                    assert(p == after_success(s0[i as int], now));
                    assert(s0.remove(i as int).insert(i as int, p) =~= s0.update(i as int, p));
                    assert forall|a: int, b: int| 0 <= a < b < s0.len() implies s0.update(i as int, p)[a].peer_id
                        != s0.update(i as int, p)[b].peer_id by {
                        assert(s0[a].peer_id != s0[b].peer_id);
                    }
                }
                self.restore(i, p);
                proof {
                    assert forall|k: int|
                        0 <= k < s0.len() && s0[k].peer_id == peer implies k == i by {
                        if k != i {
                            if k < i {
                                assert(s0[k].peer_id != s0[i as int].peer_id);
                            } else {
                                assert(s0[i as int].peer_id != s0[k].peer_id);
                            }
                        }
                    }
                }
            },
            None => {
                self.append(
                    CachedPeer {
                        peer_id: peer,
                        addr,
                        last_seen: now,
                        connection_attempts: 1,
                        consecutive_failures: 0,
                        successful_connections: 1,
                    },
                );
            },
        }
    }

    /// Records a failed connection to `peer` at `addr` at `now`.
    pub fn mark_failure(&mut self, peer: PeerId, addr: String, now: u64)
        requires
            old(self).wf(),
        ensures
            final(self).wf(),
            final(self).spec_config() == old(self).spec_config(),
            forall|i: int|
                0 <= i < old(self).peers().len() && old(self).peers()[i].peer_id == peer
                    ==> final(self).peers() == old(self).peers().update(i, after_failure(old(self).peers()[i])),
            (forall|i: int| 0 <= i < old(self).peers().len() ==> old(self).peers()[i].peer_id != peer)
                ==> final(self).peers() == old(self).peers().push(
                CachedPeer {
                    peer_id: peer,
                    addr,
                    last_seen: now,
                    connection_attempts: 1,
                    consecutive_failures: 1,
                    successful_connections: 0,
                },
            ),
    {
        match self.position(&peer) {
            Some(i) => {
                let ghost s0 = self.peers@;
                let mut p = self.peers.remove(i);
                p.consecutive_failures = p.consecutive_failures.saturating_add(1);
                p.connection_attempts = p.connection_attempts.saturating_add(1);
                proof {
                    assert(p == after_failure(s0[i as int]));
                    assert(s0.remove(i as int).insert(i as int, p) =~= s0.update(i as int, p));
                    assert forall|a: int, b: int| 0 <= a < b < s0.len() implies s0.update(i as int, p)[a].peer_id
                        != s0.update(i as int, p)[b].peer_id by {
                        assert(s0[a].peer_id != s0[b].peer_id);
                    }
                }
                self.restore(i, p);
                proof {
                    assert forall|k: int|
                        0 <= k < s0.len() && s0[k].peer_id == peer implies k == i by {
                        if k != i {
                            if k < i {
                                assert(s0[k].peer_id != s0[i as int].peer_id);
                            } else {
                                assert(s0[i as int].peer_id != s0[k].peer_id);
                            }
                        }
                    }
                }
            },
            None => {
                self.append(
                    CachedPeer {
                        peer_id: peer,
                        addr,
                        last_seen: now,
                        connection_attempts: 1,
                        consecutive_failures: 1,
                        successful_connections: 0,
                    },
                );
            },
        }
    }

    /// Number of cached peers, and of those not stale at `now`.
    pub fn counts(&self, now: u64) -> (r: (usize, usize))
        ensures
            r.0 == self.peers().len(),
            r.1 == viable_count(
                self.peers(),
                self.spec_config().max_consecutive_failures,
                self.spec_config().stale_timeout_secs,
                now,
            ),
    {
        let mut viable: usize = 0;
        let mut i: usize = 0;
        while i < self.peers.len()
            invariant
                0 <= i <= self.peers@.len(),
                viable <= i,
                viable == viable_count(
                    self.peers@.take(i as int),
                    self.config.max_consecutive_failures,
                    self.config.stale_timeout_secs,
                    now,
                ),
            decreases self.peers@.len() - i,
        {
            assert(self.peers@.take(i + 1).drop_last() =~= self.peers@.take(i as int));
            if !self.peers[i].is_stale(self.config.max_consecutive_failures, self.config.stale_timeout_secs, now) {
                viable = viable + 1;
            }
            i = i + 1;
        }
        assert(self.peers@.take(self.peers@.len() as int) =~= self.peers@);
        (self.peers.len(), viable)
    }

    /// Statistics at `now`, for the cache kept in `cache_file`.
    pub fn stats(&self, now: u64, cache_file: String) -> (r: crate::config::PeerCacheStats)
        ensures
            r.total_peers == self.peers().len(),
            r.viable_peers == viable_count(
                self.peers(),
                self.spec_config().max_consecutive_failures,
                self.spec_config().stale_timeout_secs,
                now,
            ),
            r.cache_file == cache_file,
    {
        let (total_peers, viable_peers) = self.counts(now);
        crate::config::PeerCacheStats { total_peers, viable_peers, cache_file }
    }

    /// The peers not stale at `now`, each once, in bootstrap order: most successful
    /// first, then most recently seen.
    pub fn get_viable_peers(&self, now: u64) -> (r: Vec<(PeerId, String)>)
        requires
            self.wf(),
        ensures
            r@.len() == viable_count(
                self.peers(),
                self.spec_config().max_consecutive_failures,
                self.spec_config().stale_timeout_secs,
                now,
            ),
            forall|i: int| 0 <= i < r@.len() ==> exists|k: int|
                0 <= k < self.peers().len() && (#[trigger] r@[i]).0 == self.peers()[k].peer_id,
            forall|i: int| 0 <= i < r@.len() ==> {
                let e = entry_of(self.peers(), (#[trigger] r@[i]).0);
                &&& r@[i].1@ == e.addr@
                &&& !is_stale_spec(e, self.spec_config().max_consecutive_failures, self.spec_config().stale_timeout_secs, now)
            },
            forall|i: int, j: int| 0 <= i < j < r@.len() ==> r@[i].0 != r@[j].0 && bootstrap_before(
                entry_of(self.peers(), r@[i].0),
                entry_of(self.peers(), r@[j].0),
            ),
    {
        let ghost s = self.peers@;
        let mf = self.config.max_consecutive_failures;
        let st = self.config.stale_timeout_secs;
        // Indices of the viable entries, kept in bootstrap order.
        let mut order: Vec<usize> = Vec::new();
        let mut i: usize = 0;
        while i < self.peers.len()
            invariant
                s == self.peers@,
                peers_unique(s),
                mf == self.config.max_consecutive_failures,
                st == self.config.stale_timeout_secs,
                0 <= i <= s.len(),
                order@.len() == viable_count(s.take(i as int), mf, st, now),
                forall|a: int| 0 <= a < order@.len() ==> (#[trigger] order@[a]) < i && !is_stale_spec(s[order@[a] as int], mf, st, now),
                forall|a: int, b: int| #![trigger order@[a], order@[b]] 0 <= a < b < order@.len() ==> order@[a] != order@[b]
                    && bootstrap_before(s[order@[a] as int], s[order@[b] as int]),
            decreases s.len() - i,
        {
            assert(s.take(i + 1).drop_last() =~= s.take(i as int));
            let p = &self.peers[i];
            if !p.is_stale(mf, st, now) {
                let mut pos: usize = 0;
                while pos < order.len() && !(p.successful_connections > self.peers[order[pos]].successful_connections
                    || (p.successful_connections == self.peers[order[pos]].successful_connections
                        && p.last_seen >= self.peers[order[pos]].last_seen))
                    invariant
                        s == self.peers@,
                        0 <= pos <= order@.len(),
                        forall|a: int| 0 <= a < order@.len() ==> (#[trigger] order@[a]) < i,
                        i < s.len(),
                        *p == s[i as int],
                        forall|a: int| 0 <= a < pos ==> !bootstrap_before(s[i as int], s[(#[trigger] order@[a]) as int]),
                        forall|a: int| 0 <= a < order@.len() ==> !is_stale_spec(s[(#[trigger] order@[a]) as int], mf, st, now),
                        forall|a: int, b: int| #![trigger order@[a], order@[b]] 0 <= a < b < order@.len() ==> order@[a] != order@[b]
                            && bootstrap_before(s[order@[a] as int], s[order@[b] as int]),
                    decreases order@.len() - pos,
                {
                    pos = pos + 1;
                }
                let ghost o0 = order@;
                let ghost pi = s[i as int];
                proof {
                    assert(pos == o0.len() || bootstrap_before(pi, s[o0[pos as int] as int]));
                }
                order.insert(pos, i);
                proof {
                    assert(order@ == o0.insert(pos as int, i));
                    assert forall|a: int, b: int| 0 <= a < b < order@.len() implies order@[a] != order@[b]
                        && bootstrap_before(s[order@[a] as int], s[order@[b] as int]) by {
                        if a < pos {
                            assert(order@[a] == o0[a]);
                            assert(o0[a] < i);
                            if b < pos {
                                assert(order@[b] == o0[b]);
                            } else if b == pos {
                                assert(order@[b] == i);
                                assert(!bootstrap_before(pi, s[o0[a] as int]));
                            } else {
                                assert(order@[b] == o0[b - 1]);
                            }
                        } else if a == pos {
                            assert(order@[a] == i);
                            assert(order@[b] == o0[b - 1]);
                            assert(o0[b - 1] < i);
                            assert(bootstrap_before(pi, s[o0[pos as int] as int]));
                            if b - 1 > pos {
                                assert(bootstrap_before(s[o0[pos as int] as int], s[o0[b - 1] as int]));
                            }
                        } else {
                            assert(order@[a] == o0[a - 1] && order@[b] == o0[b - 1]);
                        }
                    }
                    assert forall|a: int| 0 <= a < order@.len() implies (#[trigger] order@[a]) < i + 1 && !is_stale_spec(s[order@[a] as int], mf, st, now) by {
                        if a < pos {
                            assert(order@[a] == o0[a]);
                        } else if a > pos {
                            assert(order@[a] == o0[a - 1]);
                        }
                    }
                }
            }
            i = i + 1;
        }
        assert(s.take(s.len() as int) =~= s);
        let mut r: Vec<(PeerId, String)> = Vec::new();
        let mut j: usize = 0;
        while j < order.len()
            invariant
                s == self.peers@,
                peers_unique(s),
                mf == self.config.max_consecutive_failures,
                st == self.config.stale_timeout_secs,
                forall|a: int| 0 <= a < order@.len() ==> (#[trigger] order@[a]) < s.len() && !is_stale_spec(s[order@[a] as int], mf, st, now),
                forall|a: int, b: int| #![trigger order@[a], order@[b]] 0 <= a < b < order@.len() ==> order@[a] != order@[b]
                    && bootstrap_before(s[order@[a] as int], s[order@[b] as int]),
                0 <= j <= order@.len(),
                r@.len() == j,
                forall|a: int| 0 <= a < j ==> (#[trigger] r@[a]).0 == s[order@[a] as int].peer_id
                    && r@[a].1@ == s[order@[a] as int].addr@,
            decreases order@.len() - j,
        {
            let k = order[j];
            let addr = self.peers[k].addr.clone();
            r.push((self.peers[k].peer_id, addr));
            j = j + 1;
        }
        proof {
            assert forall|a: int| 0 <= a < r@.len() implies entry_of(s, (#[trigger] r@[a]).0) == s[order@[a] as int] by {
                let k = order@[a] as int;
                assert(s[k].peer_id == r@[a].0);
                let c = choose|c: int| 0 <= c < s.len() && s[c].peer_id == r@[a].0;
                if c != k {
                    if c < k {
                        assert(s[c].peer_id != s[k].peer_id);
                    } else {
                        assert(s[k].peer_id != s[c].peer_id);
                    }
                }
            }
            assert forall|a: int| 0 <= a < r@.len() implies exists|k: int|
                0 <= k < s.len() && (#[trigger] r@[a]).0 == s[k].peer_id by {
                assert(s[order@[a] as int].peer_id == r@[a].0);
            }
            assert forall|a: int, b: int| 0 <= a < b < r@.len() implies r@[a].0 != r@[b].0 by {
                let ka = order@[a] as int;
                let kb = order@[b] as int;
                if ka < kb {
                    assert(s[ka].peer_id != s[kb].peer_id);
                } else {
                    assert(s[kb].peer_id != s[ka].peer_id);
                }
            }
        }
        r
    }

    /// Drops the peers stale at `now`; then, while more than `max_capacity` remain,
    /// drops a least successful one.
    pub fn cleanup(&mut self, now: u64)
        requires
            old(self).wf(),
        ensures
            final(self).wf(),
            final(self).spec_config() == old(self).spec_config(),
            forall|p: CachedPeer| #[trigger] final(self).peers().contains(p) ==> old(self).peers().contains(p)
                && !is_stale_spec(p, old(self).spec_config().max_consecutive_failures, old(self).spec_config().stale_timeout_secs, now),
            final(self).peers().len() == if viable_count(
                old(self).peers(),
                old(self).spec_config().max_consecutive_failures,
                old(self).spec_config().stale_timeout_secs,
                now,
            ) <= old(self).spec_config().max_capacity {
                viable_count(
                    old(self).peers(),
                    old(self).spec_config().max_consecutive_failures,
                    old(self).spec_config().stale_timeout_secs,
                    now,
                )
            } else {
                old(self).spec_config().max_capacity as nat
            },
            forall|p: CachedPeer, q: CachedPeer|
                #![trigger final(self).peers().contains(p), old(self).peers().contains(q)]
                final(self).peers().contains(p) && old(self).peers().contains(q) && !is_stale_spec(
                    q,
                    old(self).spec_config().max_consecutive_failures,
                    old(self).spec_config().stale_timeout_secs,
                    now,
                ) && !final(self).peers().contains(q) ==> q.successful_connections <= p.successful_connections,
    {
        let mf = self.config.max_consecutive_failures;
        let st = self.config.stale_timeout_secs;
        let cap = self.config.max_capacity;
        let ghost s0 = self.peers@;
        let mut rest: Vec<CachedPeer> = Vec::new();
        std::mem::swap(&mut self.peers, &mut rest);
        let mut kept: Vec<CachedPeer> = Vec::new();
        let ghost mut i: int = 0;
        while rest.len() > 0
            invariant
                peers_unique(s0),
                0 <= i <= s0.len(),
                rest@ == s0.subrange(i, s0.len() as int),
                kept@.len() == viable_count(s0.take(i), mf, st, now),
                forall|a: int| 0 <= a < kept@.len() ==> exists|k: int|
                    0 <= k < i && s0[k] == #[trigger] kept@[a],
                forall|k: int| 0 <= k < i && !is_stale_spec(#[trigger] s0[k], mf, st, now) ==> kept@.contains(s0[k]),
                forall|a: int| 0 <= a < kept@.len() ==> !is_stale_spec(#[trigger] kept@[a], mf, st, now),
                peers_unique(kept@),
                forall|a: int, k: int| 0 <= a < kept@.len() && i <= k < s0.len() ==> (#[trigger] kept@[a]).peer_id != (#[trigger] s0[k]).peer_id,
            decreases rest@.len(),
        {
            let p = rest.remove(0);
            proof {
                assert(p == s0[i]);
                assert(s0.take(i + 1).drop_last() =~= s0.take(i));
                assert(s0.take(i + 1).last() == s0[i]);
            }
            if !p.is_stale(mf, st, now) {
                let ghost k0 = kept@;
                kept.push(p);
                proof {
                    assert(kept@ == k0.push(s0[i]));
                    assert forall|a: int| 0 <= a < kept@.len() implies exists|k: int| 0 <= k < i + 1 && s0[k] == #[trigger] kept@[a] by {
                        if a < k0.len() {
                            assert(kept@[a] == k0[a]);
                        } else {
                            assert(s0[i] == kept@[a]);
                        }
                    }
                    assert forall|k: int| 0 <= k < i + 1 && !is_stale_spec(#[trigger] s0[k], mf, st, now) implies kept@.contains(s0[k]) by {
                        if k < i {
                            assert(k0.contains(s0[k]));
                            let a = choose|a: int| 0 <= a < k0.len() && k0[a] == s0[k];
                            assert(kept@[a] == s0[k]);
                        } else {
                            assert(kept@[k0.len() as int] == s0[k]);
                        }
                    }
                    assert forall|a: int, b: int| 0 <= a < b < kept@.len() implies kept@[a].peer_id != kept@[b].peer_id by {
                        if b == k0.len() {
                            assert(kept@[a] == k0[a]);
                        } else {
                            assert(kept@[a] == k0[a] && kept@[b] == k0[b]);
                        }
                    }
                    assert forall|a: int, k: int| 0 <= a < kept@.len() && i + 1 <= k < s0.len() implies (#[trigger] kept@[a]).peer_id != (#[trigger] s0[k]).peer_id by {
                        if a < k0.len() {
                            assert(kept@[a] == k0[a]);
                        } else {
                            assert(s0[i].peer_id != s0[k].peer_id);
                        }
                    }
                }
            } else {
                proof {
                    assert forall|a: int| 0 <= a < kept@.len() implies exists|k: int| 0 <= k < i + 1 && s0[k] == #[trigger] kept@[a] by {
                        let k = choose|k: int| 0 <= k < i && s0[k] == kept@[a];
                    }
                }
            }
            proof {
                i = i + 1;
            }
        }
        assert(s0.take(s0.len() as int) =~= s0);
        let ghost viable = kept@;
        while kept.len() > cap
            invariant
                viable.len() > cap ==> kept@.len() >= cap,
                viable.len() >= kept@.len(),
                peers_unique(kept@),
                forall|p: CachedPeer| #[trigger] kept@.contains(p) ==> viable.contains(p),
                forall|p: CachedPeer, q: CachedPeer| #![trigger kept@.contains(p), viable.contains(q)]
                    kept@.contains(p) && viable.contains(q) && !kept@.contains(q) ==> q.successful_connections <= p.successful_connections,
                viable.len() <= cap ==> kept@ == viable,
            decreases kept@.len(),
        {
            let mut m: usize = 0;
            let mut j: usize = 1;
            while j < kept.len()
                invariant
                    1 <= j <= kept@.len(),
                    m < kept@.len(),
                    forall|a: int| 0 <= a < j ==> kept@[m as int].successful_connections <= (#[trigger] kept@[a]).successful_connections,
                decreases kept@.len() - j,
            {
                if kept[j].successful_connections < kept[m].successful_connections {
                    m = j;
                }
                j = j + 1;
            }
            let ghost k0 = kept@;
            let ghost gone = k0[m as int];
            kept.remove(m);
            proof {
                assert(kept@ == k0.remove(m as int));
                assert forall|a: int, b: int| 0 <= a < b < kept@.len() implies kept@[a].peer_id != kept@[b].peer_id by {
                    let a2 = if a < m { a } else { a + 1 };
                    let b2 = if b < m { b } else { b + 1 };
                    assert(kept@[a] == k0[a2] && kept@[b] == k0[b2]);
                }
                assert forall|p: CachedPeer| #[trigger] kept@.contains(p) implies k0.contains(p) && p != gone by {
                    let a = choose|a: int| 0 <= a < kept@.len() && kept@[a] == p;
                    let a2 = if a < m { a } else { a + 1 };
                    assert(k0[a2] == p);
                    if p == gone {
                        assert(k0[a2].peer_id == k0[m as int].peer_id);
                        if a2 < m {
                            assert(k0[a2].peer_id != k0[m as int].peer_id);
                        } else {
                            assert(k0[m as int].peer_id != k0[a2].peer_id);
                        }
                    }
                }
                assert forall|q: CachedPeer| #[trigger] k0.contains(q) && q != gone implies kept@.contains(q) by {
                    let a = choose|a: int| 0 <= a < k0.len() && k0[a] == q;
                    assert(a != m);
                    if a < m {
                        assert(kept@[a] == q);
                    } else {
                        assert(kept@[a - 1] == q);
                    }
                }
                assert forall|p: CachedPeer, q: CachedPeer| #![trigger kept@.contains(p), viable.contains(q)]
                    kept@.contains(p) && viable.contains(q) && !kept@.contains(q) implies q.successful_connections <= p.successful_connections by {
                    assert(k0.contains(p));
                    if q == gone {
                        let a = choose|a: int| 0 <= a < k0.len() && k0[a] == p;
                        assert(k0[m as int].successful_connections <= k0[a].successful_connections);
                    } else {
                        assert(!k0.contains(q));
                    }
                }
            }
        }
        self.peers = kept;
        proof {
            let f = self.peers@;
            assert forall|p: CachedPeer| #[trigger] f.contains(p) implies s0.contains(p) && !is_stale_spec(p, mf, st, now) by {
                assert(viable.contains(p));
                let a = choose|a: int| 0 <= a < viable.len() && viable[a] == p;
                let k = choose|k: int| 0 <= k < s0.len() && s0[k] == viable[a];
                assert(s0[k] == p);
            }
            assert forall|p: CachedPeer, q: CachedPeer|
                #![trigger f.contains(p), s0.contains(q)]
                f.contains(p) && s0.contains(q) && !is_stale_spec(q, mf, st, now) && !f.contains(q)
                    implies q.successful_connections <= p.successful_connections by {
                let k = choose|k: int| 0 <= k < s0.len() && s0[k] == q;
                assert(viable.contains(s0[k]));
            }
        }
    }
}

} // verus!
