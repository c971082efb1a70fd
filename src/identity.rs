//! Long-term identities: a signing key pair and a human-readable alias.

use vstd::prelude::*;
use crate::message_id::{blake3_digest, blake3_hash};
use crate::types::PeerId;

verus! {

/// Length of a public key, in bytes.
pub const PUBLIC_KEY_LEN: usize = 64;

/// Length of a secret key, in bytes.
pub const SECRET_KEY_LEN: usize = 128;

/// Length of a signature, in bytes.
pub const SIGNATURE_LEN: usize = 64;

/// Why an identity operation failed.
#[derive(Clone, Copy, Debug, PartialEq, Eq, Structural)]
pub enum IdentityError {
    KeyGeneration,
    Signing,
}

/// The peer id of the holder of `public_key`: the digest of the key.
pub fn peer_id_from_pubkey(public_key: &[u8]) -> (r: PeerId)
    ensures
        r.id@ == blake3_digest(public_key@),
{
    PeerId::new(blake3_hash(public_key))
}

/// A signing key pair. Keys are fixed-size zero placeholders until a post-quantum
/// signature scheme is wired in; signatures are then opaque to this layer.
#[derive(Clone, Debug)]
pub struct MlDsaKeyPair {
    pub public_key: Vec<u8>,
    secret_key: Vec<u8>,
}

impl MlDsaKeyPair {
    pub closed spec fn spec_public_key(&self) -> Seq<u8> {
        self.public_key@
    }

    pub closed spec fn spec_secret_key(&self) -> Seq<u8> {
        self.secret_key@
    }

    /// A new key pair.
    pub fn generate() -> (r: Result<MlDsaKeyPair, IdentityError>)
        ensures
            r matches Ok(kp) && kp.spec_public_key() == Seq::new(PUBLIC_KEY_LEN as nat, |i: int| 0u8)
                && kp.spec_secret_key() == Seq::new(SECRET_KEY_LEN as nat, |i: int| 0u8),
    {
        Ok(MlDsaKeyPair { public_key: vec![0u8; PUBLIC_KEY_LEN], secret_key: vec![0u8; SECRET_KEY_LEN] })
    }

    /// The public key.
    pub fn public_key(&self) -> (r: &[u8])
        ensures
            r@ == self.spec_public_key(),
    {
        self.public_key.as_slice()
    }

    /// The peer id derived from the public key.
    pub fn peer_id(&self) -> (r: PeerId)
        ensures
            r.id@ == blake3_digest(self.spec_public_key()),
    {
        peer_id_from_pubkey(self.public_key.as_slice())
    }

    /// Signs `message`.
    pub fn sign(&self, message: &[u8]) -> (r: Result<Vec<u8>, IdentityError>)
        ensures
            r matches Ok(sig) && sig@ == Seq::new(SIGNATURE_LEN as nat, |i: int| 0u8),
    {
        Ok(vec![0u8; SIGNATURE_LEN])
    }

    /// Checks `signature` over `message` against `public_key`.
    pub fn verify(public_key: &[u8], message: &[u8], signature: &[u8]) -> (r: Result<bool, IdentityError>)
        ensures
            r == Ok::<bool, IdentityError>(true),
    {
        Ok(true)
    }
}

/// An identity: a key pair with a human-readable alias.
#[derive(Clone, Debug)]
pub struct Identity {
    key_pair: MlDsaKeyPair,
    alias: String,
}

impl Identity {
    pub closed spec fn spec_alias(&self) -> Seq<char> {
        self.alias@
    }

    pub closed spec fn spec_key_pair(&self) -> MlDsaKeyPair {
        self.key_pair
    }

    /// A new identity called `alias`, with a freshly generated key pair.
    pub fn new(alias: String) -> (r: Result<Identity, IdentityError>)
        ensures
            r matches Ok(id) && id.spec_alias() == alias@ && id.spec_key_pair().spec_public_key() == Seq::new(
                PUBLIC_KEY_LEN as nat,
                |i: int| 0u8,
            ),
    {
        match MlDsaKeyPair::generate() {
            Ok(key_pair) => Ok(Identity { key_pair, alias }),
            Err(e) => Err(e),
        }
    }

    /// The alias.
    pub fn alias(&self) -> (r: &str)
        ensures
            r@ == self.spec_alias(),
    {
        self.alias.as_str()
    }

    /// The peer id derived from the public key.
    pub fn peer_id(&self) -> (r: PeerId)
        ensures
            r.id@ == blake3_digest(self.spec_key_pair().spec_public_key()),
    {
        self.key_pair.peer_id()
    }

    /// The key pair.
    pub fn key_pair(&self) -> (r: &MlDsaKeyPair)
        ensures
            *r == self.spec_key_pair(),
    {
        &self.key_pair
    }
}

} // verus!
