use saorsa_gossip::presence::{derive_presence_tag, presence_tag_input};
use saorsa_gossip::types::PeerId;

#[test]
fn test_derive_presence_tag_deterministic() {
    // Test that same inputs produce same tag
    let secret = [1u8; 32];
    let peer = PeerId::new([2u8; 32]);
    let time_slice = 12345u64;

    let tag1 = derive_presence_tag(&secret, &peer, time_slice);
    let tag2 = derive_presence_tag(&secret, &peer, time_slice);

    assert_eq!(tag1, tag2, "Same inputs should produce same tag");
}

#[test]
fn test_derive_presence_tag_rotation() {
    // Test that different time slices produce different tags
    let secret = [1u8; 32];
    let peer = PeerId::new([2u8; 32]);

    let tag1 = derive_presence_tag(&secret, &peer, 1000);
    let tag2 = derive_presence_tag(&secret, &peer, 1001);

    assert_ne!(tag1, tag2, "Different time slices should produce different tags");
}

#[test]
fn test_derive_presence_tag_peer_unique() {
    // Test that different peers produce different tags
    let secret = [1u8; 32];
    let peer1 = PeerId::new([1u8; 32]);
    let peer2 = PeerId::new([2u8; 32]);
    let time_slice = 12345u64;

    let tag1 = derive_presence_tag(&secret, &peer1, time_slice);
    let tag2 = derive_presence_tag(&secret, &peer2, time_slice);

    assert_ne!(tag1, tag2, "Different peers should produce different tags");
}

#[test]
fn presence_tag_is_the_keyed_hash_of_id_and_slice() {
    let secret = [3u8; 32];
    let peer = PeerId::new([4u8; 32]);
    let input = presence_tag_input(&peer, 7);
    let mut expected_input = vec![4u8; 32];
    expected_input.extend_from_slice(&7u64.to_le_bytes());
    assert_eq!(input, expected_input);
    let tag = derive_presence_tag(&secret, &peer, 7);
    assert_eq!(tag, *blake3::keyed_hash(&secret, &expected_input).as_bytes());
    assert_ne!(tag, *blake3::hash(&expected_input).as_bytes());
}
