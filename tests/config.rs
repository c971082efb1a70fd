use saorsa_gossip::config::{CipherSuite, GroupContext, PeerCacheConfig, TransportConfig};
use saorsa_gossip::types::TopicId;

#[test]
fn peer_cache_config_defaults() {
    let c = PeerCacheConfig::default();
    assert_eq!(c.cache_filename, "peer_cache.bin");
    assert_eq!(c.max_capacity, 5000);
    assert_eq!(c.max_consecutive_failures, 3);
    assert_eq!(c.stale_timeout_secs, 30 * 86_400);
    assert!(c.cache_path.is_none());
    assert!(!c.testing_mode);
    assert!(PeerCacheConfig::testing().testing_mode);
}

#[test]
fn peer_cache_config_builders() {
    let c = PeerCacheConfig::testing()
        .cache_filename("test_custom.bin")
        .max_capacity(100)
        .stale_timeout_days(2)
        .cache_directory("/opt/my-app".to_string());
    assert_eq!(c.cache_filename, "test_custom.bin");
    assert_eq!(c.max_capacity, 100);
    assert_eq!(c.stale_timeout_secs, 172_800);
    assert_eq!(c.cache_path.as_deref(), Some("/opt/my-app"));
    assert!(c.testing_mode);
    let p = PeerCacheConfig::with_path("/var/cache".to_string());
    assert_eq!(p.cache_path.as_deref(), Some("/var/cache"));
    assert!(!p.testing_mode);
}

#[test]
fn transport_config_defaults() {
    let c = TransportConfig::default();
    assert!(c.enable_0rtt);
    assert!(c.enable_migration);
    assert_eq!(c.max_idle_timeout, 30);
    assert_eq!(c.keep_alive_interval, 10);
}

#[test]
fn test_group_context() {
    let topic = TopicId::new([1u8; 32]);
    let mut ctx = GroupContext::new(topic);
    assert_eq!(ctx.epoch, 0);
    assert_eq!(ctx.cipher_suite, CipherSuite::MlKem768MlDsa65);
    ctx.next_epoch();
    assert_eq!(ctx.epoch, 1);
    assert_eq!(ctx.topic_id, topic);
    assert_eq!(ctx.derive_presence_secret(b"user", 5), [0u8; 32]);
}
