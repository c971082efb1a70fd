//! Message identifiers: a BLAKE3 digest of topic, epoch, origin and payload digest.

use vstd::prelude::*;
use crate::types::{MessageId, PeerId, TopicId};

verus! {

/// The BLAKE3 digest of a byte string.
pub uninterp spec fn blake3_digest(data: Seq<u8>) -> Seq<u8>;

/// Relies on blake3::hash: the 32-byte BLAKE3 digest of `data`, which depends on
/// the bytes alone.
#[verifier::external_body]
pub(crate) fn blake3_hash(data: &[u8]) -> (r: [u8; 32])
    ensures
        r@ == blake3_digest(data@),
{
    *blake3::hash(data).as_bytes()
}

/// The eight little-endian bytes of `e`.
pub open spec fn u64_le_bytes(e: u64) -> Seq<u8> {
    seq![
        (e & 0xff) as u8,
        ((e >> 8u64) & 0xff) as u8,
        ((e >> 16u64) & 0xff) as u8,
        ((e >> 24u64) & 0xff) as u8,
        ((e >> 32u64) & 0xff) as u8,
        ((e >> 40u64) & 0xff) as u8,
        ((e >> 48u64) & 0xff) as u8,
        ((e >> 56u64) & 0xff) as u8,
    ]
}

/// The bytes a message id is the digest of: topic, epoch (little-endian), origin
/// and payload digest, in that order.
pub open spec fn msg_id_preimage(
    topic: Seq<u8>,
    epoch: u64,
    origin: Seq<u8>,
    payload_hash: Seq<u8>,
) -> Seq<u8> {
    topic + u64_le_bytes(epoch) + origin + payload_hash
}

/// The id of `payload` published on `topic` by `origin` during second `epoch`.
pub open spec fn message_id_of(topic: TopicId, epoch: u64, origin: PeerId, payload: Seq<u8>) -> Seq<u8> {
    blake3_digest(msg_id_preimage(topic.id@, epoch, origin.id@, blake3_digest(payload)))
}

/// Assembles the bytes that a message id digests.
pub fn message_id_preimage(
    topic: &TopicId,
    epoch: u64,
    origin: &PeerId,
    payload_hash: &[u8; 32],
) -> (r: Vec<u8>)
    ensures
        r@ == msg_id_preimage(topic.id@, epoch, origin.id@, payload_hash@),
{
    let mut r: Vec<u8> = Vec::new();
    let mut i: usize = 0;
    while i < 32
        invariant
            0 <= i <= 32,
            r@ == topic.id@.take(i as int),
        decreases 32 - i,
    {
        r.push(topic.id[i]);
        assert(topic.id@.take(i + 1) =~= topic.id@.take(i as int).push(topic.id@[i as int]));
        i = i + 1;
    }
    assert(topic.id@.take(32) =~= topic.id@);
    let ghost r_topic = r@;
    r.push((epoch & 0xff) as u8);
    r.push(((epoch >> 8u64) & 0xff) as u8);
    r.push(((epoch >> 16u64) & 0xff) as u8);
    r.push(((epoch >> 24u64) & 0xff) as u8);
    r.push(((epoch >> 32u64) & 0xff) as u8);
    r.push(((epoch >> 40u64) & 0xff) as u8);
    r.push(((epoch >> 48u64) & 0xff) as u8);
    r.push(((epoch >> 56u64) & 0xff) as u8);
    assert(r@ =~= r_topic + u64_le_bytes(epoch));
    let ghost r_epoch = r@;
    let mut i: usize = 0;
    while i < 32
        invariant
            0 <= i <= 32,
            r@ == r_epoch + origin.id@.take(i as int),
        decreases 32 - i,
    {
        r.push(origin.id[i]);
        assert(origin.id@.take(i + 1) =~= origin.id@.take(i as int).push(origin.id@[i as int]));
        i = i + 1;
    }
    assert(origin.id@.take(32) =~= origin.id@);
    let ghost r_origin = r@;
    let mut i: usize = 0;
    while i < 32
        invariant
            0 <= i <= 32,
            r@ == r_origin + payload_hash@.take(i as int),
        decreases 32 - i,
    {
        r.push(payload_hash[i]);
        assert(payload_hash@.take(i + 1) =~= payload_hash@.take(i as int).push(payload_hash@[i as int]));
        i = i + 1;
    }
    assert(payload_hash@.take(32) =~= payload_hash@);
    r
}

/// The id of `payload` published on `topic` by `origin` during second `epoch`.
pub fn calculate_msg_id(topic: &TopicId, epoch: u64, origin: &PeerId, payload: &[u8]) -> (r: MessageId)
    ensures
        r@ == message_id_of(*topic, epoch, *origin, payload@),
{
    let payload_hash = blake3_hash(payload);
    let preimage = message_id_preimage(topic, epoch, origin, &payload_hash);
    blake3_hash(preimage.as_slice())
}

/// A message id depends on topic, epoch, origin and payload alone, so every
/// receiver that computes it from the same four values gets the same id.
pub proof fn lemma_message_id_deterministic(
    topic1: TopicId,
    topic2: TopicId,
    epoch1: u64,
    epoch2: u64,
    origin1: PeerId,
    origin2: PeerId,
    payload1: Seq<u8>,
    payload2: Seq<u8>,
)
    requires
        topic1 == topic2,
        epoch1 == epoch2,
        origin1 == origin2,
        payload1 == payload2,
    ensures
        message_id_of(topic1, epoch1, origin1, payload1) == message_id_of(
            topic2,
            epoch2,
            origin2,
            payload2,
        ),
{
}

/// Distinct topics, origins or payload digests give distinct preimages, so ids of
/// different messages can only meet through a digest collision.
pub proof fn lemma_preimage_separates(
    t1: Seq<u8>,
    t2: Seq<u8>,
    e1: u64,
    e2: u64,
    o1: Seq<u8>,
    o2: Seq<u8>,
    h1: Seq<u8>,
    h2: Seq<u8>,
)
    requires
        t1.len() == 32 && t2.len() == 32,
        o1.len() == 32 && o2.len() == 32,
        h1.len() == 32 && h2.len() == 32,
        msg_id_preimage(t1, e1, o1, h1) == msg_id_preimage(t2, e2, o2, h2),
    ensures
        t1 == t2,
        o1 == o2,
        h1 == h2,
        u64_le_bytes(e1) == u64_le_bytes(e2),
{
    let a = msg_id_preimage(t1, e1, o1, h1);
    let b = msg_id_preimage(t2, e2, o2, h2);
    assert(t1 =~= a.subrange(0, 32));
    assert(t2 =~= b.subrange(0, 32));
    assert(u64_le_bytes(e1) =~= a.subrange(32, 40));
    assert(u64_le_bytes(e2) =~= b.subrange(32, 40));
    assert(o1 =~= a.subrange(40, 72));
    assert(o2 =~= b.subrange(40, 72));
    assert(h1 =~= a.subrange(72, 104));
    assert(h2 =~= b.subrange(72, 104));
}

} // verus!
