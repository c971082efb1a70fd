use saorsa_gossip::config::{PeerCacheConfig, DEFAULT_MAX_FAILURES};
use saorsa_gossip::peer_cache::{bootstrap_batch, bootstrap_continues, bootstrap_next_start, CachedPeer, PeerCache};
use saorsa_gossip::types::PeerId;

const NOW: u64 = 1_700_000_000;

#[test]
fn test_peer_cache_creation() {
    let cache = PeerCache::new(PeerCacheConfig::testing());
    let stats = cache.stats(NOW, "peer_cache.bin".to_string());
    assert_eq!(stats.total_peers, 0);
}

#[test]
fn test_mark_success() {
    let mut cache = PeerCache::new(PeerCacheConfig::testing());
    let peer_id = PeerId::new([1u8; 32]);

    cache.mark_success(peer_id, "127.0.0.1:8080".to_string(), NOW);

    let stats = cache.stats(NOW, String::new());
    assert_eq!(stats.total_peers, 1);
    assert_eq!(stats.viable_peers, 1);
}

#[test]
fn test_mark_failure() {
    let mut cache = PeerCache::new(PeerCacheConfig::testing());
    let peer_id = PeerId::new([2u8; 32]);

    // Mark failures up to threshold
    for _ in 0..DEFAULT_MAX_FAILURES {
        cache.mark_failure(peer_id, "127.0.0.1:8081".to_string(), NOW);
    }

    let stats = cache.stats(NOW, String::new());
    assert_eq!(stats.total_peers, 1);
    // Should now be stale due to consecutive failures
    assert_eq!(stats.viable_peers, 0);
}

#[test]
fn test_custom_config() {
    let config = PeerCacheConfig::testing().cache_filename("test_custom.bin").max_capacity(100);
    let file = config.cache_filename.clone();
    let cache = PeerCache::new(config);
    let stats = cache.stats(NOW, file);

    assert!(stats.cache_file.contains("test_custom.bin"));
    assert_eq!(cache.config().max_capacity, 100);
}

#[test]
fn success_resets_failures_and_counts() {
    let mut cache = PeerCache::new(PeerCacheConfig::testing());
    let p = PeerId::new([3u8; 32]);
    cache.mark_failure(p, "a".to_string(), NOW);
    cache.mark_failure(p, "a".to_string(), NOW);
    cache.mark_success(p, "a".to_string(), NOW + 5);
    let e = &cache.entries()[0];
    assert_eq!(e.consecutive_failures, 0);
    assert_eq!(e.successful_connections, 1);
    assert_eq!(e.connection_attempts, 3);
    assert_eq!(e.last_seen, NOW + 5);
}

#[test]
fn staleness_by_age() {
    let p = CachedPeer {
        peer_id: PeerId::new([1; 32]),
        addr: "x".to_string(),
        last_seen: 100,
        connection_attempts: 1,
        consecutive_failures: 0,
        successful_connections: 1,
    };
    assert!(!p.is_stale(3, 50, 150));
    assert!(p.is_stale(3, 50, 151));
    assert!(p.is_stale(3, 50, 99));
    assert!(p.is_stale(0, 50, 100));
}

#[test]
fn viable_peers_in_bootstrap_order() {
    let mut cache = PeerCache::new(PeerCacheConfig::testing());
    let a = PeerId::new([1; 32]);
    let b = PeerId::new([2; 32]);
    let c = PeerId::new([3; 32]);
    let d = PeerId::new([4; 32]);
    cache.mark_success(a, "a".to_string(), NOW);
    cache.mark_success(b, "b".to_string(), NOW);
    cache.mark_success(b, "b".to_string(), NOW - 10);
    cache.mark_success(c, "c".to_string(), NOW + 1);
    for _ in 0..3 {
        cache.mark_failure(d, "d".to_string(), NOW);
    }
    let v = cache.get_viable_peers(NOW + 2);
    assert_eq!(
        v,
        vec![(b, "b".to_string()), (c, "c".to_string()), (a, "a".to_string())]
    );
}

#[test]
fn cleanup_drops_stale_then_least_successful() {
    let mut cache = PeerCache::new(PeerCacheConfig::testing().max_capacity(2));
    for i in 1..=4u8 {
        let p = PeerId::new([i; 32]);
        for _ in 0..i {
            cache.mark_success(p, format!("{}", i), NOW);
        }
    }
    let stale = PeerId::new([9; 32]);
    for _ in 0..3 {
        cache.mark_failure(stale, "s".to_string(), NOW);
    }
    cache.cleanup(NOW);
    let mut kept: Vec<u32> = cache.entries().iter().map(|e| e.successful_connections).collect();
    kept.sort();
    assert_eq!(kept, vec![3, 4]);
}

#[test]
fn from_entries_keeps_first_of_duplicates() {
    let e = |b: u8, s: u32| CachedPeer {
        peer_id: PeerId::new([b; 32]),
        addr: format!("{}", s),
        last_seen: NOW,
        connection_attempts: s,
        consecutive_failures: 0,
        successful_connections: s,
    };
    let cache = PeerCache::from_entries(PeerCacheConfig::testing(), vec![e(1, 1), e(2, 2), e(1, 7)]);
    assert_eq!(cache.entries().len(), 2);
    assert_eq!(cache.entries()[0].successful_connections, 1);
}

#[test]
fn bootstrap_batches_respect_sizes() {
    let viable: Vec<(PeerId, String)> = (0..7u8).map(|i| (PeerId::new([i; 32]), format!("{}", i))).collect();
    assert_eq!(bootstrap_batch(&viable, 0, 3, 100).len(), 3);
    assert_eq!(bootstrap_batch(&viable, 6, 3, 100), vec![viable[6].clone()]);
    assert_eq!(bootstrap_batch(&viable, 3, 3, 2), vec![viable[3].clone(), viable[4].clone()]);
    assert!(bootstrap_batch(&viable, 9, 3, 2).is_empty());
}

#[test]
fn bootstrap_steps() {
    assert!(bootstrap_continues(0, 5, 0, 2));
    assert!(!bootstrap_continues(5, 5, 0, 2));
    assert!(!bootstrap_continues(0, 5, 2, 2));
    assert_eq!(bootstrap_next_start(50, 50), 100);
    assert_eq!(bootstrap_next_start(usize::MAX - 1, 50), usize::MAX);
}
