use saorsa_gossip::identity::{peer_id_from_pubkey, Identity, MlDsaKeyPair};

#[test]
fn test_keypair_generation() {
    let keypair = MlDsaKeyPair::generate();
    assert!(keypair.is_ok());
}

#[test]
fn test_identity_creation() {
    let identity = Identity::new("Alice".to_string());
    assert!(identity.is_ok());

    if let Ok(id) = identity {
        assert_eq!(id.alias(), "Alice");
    }
}

#[test]
fn test_peer_id_derivation() {
    let keypair = MlDsaKeyPair::generate().ok();
    if let Some(kp) = keypair {
        let peer_id = kp.peer_id();
        assert_eq!(peer_id.as_bytes().len(), 32);
    }
}

#[test]
fn key_sizes_and_placeholder_signatures() {
    let kp = MlDsaKeyPair::generate().unwrap();
    assert_eq!(kp.public_key().len(), 64);
    assert_eq!(kp.sign(b"hello").unwrap(), vec![0u8; 64]);
    assert!(MlDsaKeyPair::verify(kp.public_key(), b"hello", &[0u8; 64]).unwrap());
}

#[test]
fn peer_id_is_the_blake3_digest_of_the_public_key() {
    let kp = MlDsaKeyPair::generate().unwrap();
    let expected = *blake3::hash(&[0u8; 64]).as_bytes();
    assert_eq!(kp.peer_id().as_bytes(), &expected);
    assert_ne!(peer_id_from_pubkey(&[1u8; 64]).as_bytes(), &[1u8; 32]);
    let id = Identity::new("Bob".to_string()).unwrap();
    assert_eq!(id.peer_id(), kp.peer_id());
    assert_eq!(id.key_pair().public_key(), kp.public_key());
}
