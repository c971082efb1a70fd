//! Presence tags: rotating tags derived from a group secret.

use vstd::prelude::*;
use crate::message_id::u64_le_bytes;
use crate::types::PeerId;
use crate::wire::{push_bytes, push_u64_le};

verus! {

/// The BLAKE3 keyed hash of `data` under `key`.
pub uninterp spec fn blake3_keyed_digest(key: Seq<u8>, data: Seq<u8>) -> Seq<u8>;

/// Relies on blake3::keyed_hash: the 32-byte keyed BLAKE3 hash of `data` under
/// `key`, which depends on the two arguments alone.
#[verifier::external_body]
fn blake3_keyed(key: &[u8; 32], data: &[u8]) -> (r: [u8; 32])
    ensures
        r@ == blake3_keyed_digest(key@, data@),
{
    *blake3::keyed_hash(key, data).as_bytes()
}

/// The bytes a presence tag is keyed over: the user's id, then the time slice
/// (little-endian).
pub open spec fn presence_input(user: PeerId, time_slice: u64) -> Seq<u8> {
    user.id@ + u64_le_bytes(time_slice)
}

/// Assembles the bytes a presence tag is keyed over.
pub fn presence_tag_input(user_id: &PeerId, time_slice: u64) -> (r: Vec<u8>)
    ensures
        r@ == presence_input(*user_id, time_slice),
{
    let mut data: Vec<u8> = Vec::new();
    push_bytes(&mut data, user_id.as_bytes());
    push_u64_le(&mut data, time_slice);
    assert(data@ =~= presence_input(*user_id, time_slice));
    data
}

/// The presence tag of `user_id` in the hour-long `time_slice`, keyed by the
/// group's `exporter_secret`.
pub fn derive_presence_tag(exporter_secret: &[u8; 32], user_id: &PeerId, time_slice: u64) -> (r: [u8; 32])
    ensures
        r@ == blake3_keyed_digest(exporter_secret@, presence_input(*user_id, time_slice)),
{
    let data = presence_tag_input(user_id, time_slice);
    blake3_keyed(exporter_secret, data.as_slice())
}

} // verus!
