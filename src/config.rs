//! Configuration and small value types of the transport, peer cache, presence and
//! group layers around the core.

use vstd::prelude::*;
use vstd::string::StringExecFns;
use crate::types::TopicId;

verus! {

/// Default maximum number of cached peers.
pub const DEFAULT_CACHE_CAPACITY: usize = 5000;

/// Default number of consecutive failures after which a peer is dropped.
pub const DEFAULT_MAX_FAILURES: u32 = 3;

/// Default stale timeout, in days.
pub const DEFAULT_STALE_TIMEOUT_DAYS: u64 = 30;

/// Seconds in a day.
pub const SECS_PER_DAY: u64 = 86_400;

/// Ways to reach a coordinator, cheapest first.
#[derive(Clone, Copy, Debug, PartialEq, Eq, PartialOrd, Ord, Hash)]
pub enum TraversalMethod {
    Direct,
    Reflexive,
    Relay,
}

/// Rank of a traversal method: lower is preferred.
pub open spec fn traversal_rank(m: TraversalMethod) -> int {
    match m {
        TraversalMethod::Direct => 0,
        TraversalMethod::Reflexive => 1,
        TraversalMethod::Relay => 2,
    }
}

impl TraversalMethod {
    /// Rank of this method: lower is preferred.
    pub fn rank(&self) -> (r: u8)
        ensures
            r == traversal_rank(*self),
    {
        match self {
            TraversalMethod::Direct => 0,
            TraversalMethod::Reflexive => 1,
            TraversalMethod::Relay => 2,
        }
    }
}

/// Whether a peer's presence beacon is current.
#[derive(Clone, Copy, Debug, PartialEq, Eq, Structural)]
pub enum PresenceStatus {
    Online,
    Offline,
    Unknown,
}

/// Group cipher suites.
#[derive(Clone, Copy, Debug, PartialEq, Eq, Structural)]
pub enum CipherSuite {
    MlKem768MlDsa65,
}

/// Group context: the topic a group is bound to, its suite and epoch.
#[derive(Clone, Copy, Debug)]
pub struct GroupContext {
    pub topic_id: TopicId,
    pub cipher_suite: CipherSuite,
    pub epoch: u64,
}

impl GroupContext {
    /// A context for `topic_id` at epoch 0.
    pub fn new(topic_id: TopicId) -> (r: GroupContext)
        ensures
            r.topic_id == topic_id,
            r.cipher_suite == CipherSuite::MlKem768MlDsa65,
            r.epoch == 0,
    {
        GroupContext { topic_id, cipher_suite: CipherSuite::MlKem768MlDsa65, epoch: 0 }
    }

    /// Advances to the next epoch.
    pub fn next_epoch(&mut self)
        requires
            old(self).epoch < u64::MAX,
        ensures
            final(self).epoch == old(self).epoch + 1,
            final(self).topic_id == old(self).topic_id,
            final(self).cipher_suite == old(self).cipher_suite,
    {
        self.epoch = self.epoch + 1;
    }

    /// The secret presence tags are derived from; all zero until a group key
    /// schedule is wired in.
    pub fn derive_presence_secret(&self, user_id: &[u8], time_slice: u64) -> (r: [u8; 32])
        ensures
            forall|i: int| 0 <= i < 32 ==> r@[i] == 0,
    {
        [0u8; 32]
    }
}

/// Transport settings.
#[derive(Clone, Debug, PartialEq, Eq, Structural)]
pub struct TransportConfig {
    pub enable_0rtt: bool,
    pub enable_migration: bool,
    pub max_idle_timeout: u64,
    pub keep_alive_interval: u64,
}

impl Default for TransportConfig {
    fn default() -> (r: TransportConfig)
        ensures
            r.enable_0rtt && r.enable_migration && r.max_idle_timeout == 30 && r.keep_alive_interval
                == 10,
    {
        TransportConfig {
            enable_0rtt: true,
            enable_migration: true,
            max_idle_timeout: 30,
            keep_alive_interval: 10,
        }
    }
}

/// Peer cache settings. Durations are in seconds; a path is a directory the file
/// name is appended to.
#[derive(Clone, Debug)]
pub struct PeerCacheConfig {
    pub cache_path: Option<String>,
    pub cache_filename: String,
    pub testing_mode: bool,
    pub max_capacity: usize,
    pub max_consecutive_failures: u32,
    pub stale_timeout_secs: u64,
    pub save_interval_secs: u64,
    pub cleanup_interval_secs: u64,
}

/// The default settings, with `path`, `testing` and the file name `name`.
pub open spec fn default_cache_config(
    c: PeerCacheConfig,
    path: Option<Seq<char>>,
    testing: bool,
) -> bool {
    &&& match (c.cache_path, path) {
        (Some(p), Some(q)) => p@ == q,
        (None, None) => true,
        _ => false,
    }
    &&& c.cache_filename@ == "peer_cache.bin"@
    &&& c.testing_mode == testing
    &&& c.max_capacity == DEFAULT_CACHE_CAPACITY
    &&& c.max_consecutive_failures == DEFAULT_MAX_FAILURES
    &&& c.stale_timeout_secs == SECS_PER_DAY * DEFAULT_STALE_TIMEOUT_DAYS
    &&& c.save_interval_secs == 60
    &&& c.cleanup_interval_secs == 300
}

impl Default for PeerCacheConfig {
    fn default() -> (r: PeerCacheConfig)
        ensures
            default_cache_config(r, None, false),
    {
        PeerCacheConfig {
            cache_path: None,
            cache_filename: String::from_str("peer_cache.bin"),
            testing_mode: false,
            max_capacity: DEFAULT_CACHE_CAPACITY,
            max_consecutive_failures: DEFAULT_MAX_FAILURES,
            stale_timeout_secs: SECS_PER_DAY * DEFAULT_STALE_TIMEOUT_DAYS,
            save_interval_secs: 60,
            cleanup_interval_secs: 300,
        }
    }
}

impl PeerCacheConfig {
    /// Defaults in testing mode (a fresh temporary directory).
    pub fn testing() -> (r: PeerCacheConfig)
        ensures
            default_cache_config(r, None, true),
    {
        PeerCacheConfig { testing_mode: true, ..PeerCacheConfig::default() }
    }

    /// Defaults with the cache kept in directory `path`.
    pub fn with_path(path: String) -> (r: PeerCacheConfig)
        ensures
            default_cache_config(r, Some(path@), false),
    {
        PeerCacheConfig { cache_path: Some(path), ..PeerCacheConfig::default() }
    }

    /// Sets the cache file name.
    pub fn cache_filename(self, name: &str) -> (r: PeerCacheConfig)
        ensures
            r.cache_filename@ == name@,
            r.cache_path == self.cache_path,
            r.testing_mode == self.testing_mode,
            r.max_capacity == self.max_capacity,
            r.max_consecutive_failures == self.max_consecutive_failures,
            r.stale_timeout_secs == self.stale_timeout_secs,
            r.save_interval_secs == self.save_interval_secs,
            r.cleanup_interval_secs == self.cleanup_interval_secs,
    {
        PeerCacheConfig { cache_filename: String::from_str(name), ..self }
    }

    /// Sets the cache directory.
    pub fn cache_directory(self, dir: String) -> (r: PeerCacheConfig)
        ensures
            r.cache_path matches Some(p) && p@ == dir@,
            r.cache_filename == self.cache_filename,
            r.testing_mode == self.testing_mode,
            r.max_capacity == self.max_capacity,
            r.max_consecutive_failures == self.max_consecutive_failures,
            r.stale_timeout_secs == self.stale_timeout_secs,
            r.save_interval_secs == self.save_interval_secs,
            r.cleanup_interval_secs == self.cleanup_interval_secs,
    {
        PeerCacheConfig { cache_path: Some(dir), ..self }
    }

    /// Sets the maximum number of cached peers.
    pub fn max_capacity(self, capacity: usize) -> (r: PeerCacheConfig)
        ensures
            r.max_capacity == capacity,
            r.cache_path == self.cache_path,
            r.cache_filename == self.cache_filename,
            r.testing_mode == self.testing_mode,
            r.max_consecutive_failures == self.max_consecutive_failures,
            r.stale_timeout_secs == self.stale_timeout_secs,
            r.save_interval_secs == self.save_interval_secs,
            r.cleanup_interval_secs == self.cleanup_interval_secs,
    {
        PeerCacheConfig { max_capacity: capacity, ..self }
    }

    /// Sets the stale timeout, in days.
    pub fn stale_timeout_days(self, days: u64) -> (r: PeerCacheConfig)
        requires
            days * SECS_PER_DAY <= u64::MAX,
        ensures
            r.stale_timeout_secs == days * SECS_PER_DAY,
            r.cache_path == self.cache_path,
            r.cache_filename == self.cache_filename,
            r.testing_mode == self.testing_mode,
            r.max_capacity == self.max_capacity,
            r.max_consecutive_failures == self.max_consecutive_failures,
            r.save_interval_secs == self.save_interval_secs,
            r.cleanup_interval_secs == self.cleanup_interval_secs,
    {
        PeerCacheConfig { stale_timeout_secs: days * SECS_PER_DAY, ..self }
    }
}

/// Peer cache statistics.
#[derive(Clone, Debug)]
pub struct PeerCacheStats {
    pub total_peers: usize,
    pub viable_peers: usize,
    pub cache_file: String,
}

} // verus!
