//! The gossip envelope on the wire: header fields in order (version, topic, message
//! id, kind, hop, ttl), then the optional payload (a presence byte, then a
//! little-endian u64 length and the bytes), then the signature (length and bytes).
//! A frame sent through the transport starts with its stream-kind byte.

use vstd::prelude::*;
use crate::message_id::u64_le_bytes;
use crate::topic::{payload_view, GossipMessage};
use crate::types::{kind_byte, stream_byte, MessageHeader, MessageKind, StreamType, TopicId};

verus! {

/// Length of an encoded header.
pub const HEADER_LEN: usize = 68;

/// The encoded header.
pub open spec fn header_bytes(h: MessageHeader) -> Seq<u8> {
    seq![h.version] + h.topic.id@ + h.msg_id@ + seq![kind_byte(h.kind), h.hop, h.ttl]
}

/// A length-prefixed byte string.
pub open spec fn prefixed(b: Seq<u8>) -> Seq<u8> {
    u64_le_bytes(b.len() as u64) + b
}

/// The encoded envelope.
pub open spec fn envelope_bytes(h: MessageHeader, payload: Option<Seq<u8>>, signature: Seq<u8>) -> Seq<u8> {
    header_bytes(h) + match payload {
        None => seq![0u8],
        Some(p) => seq![1u8] + prefixed(p),
    } + prefixed(signature)
}

/// A frame: the stream-kind byte, then the envelope.
pub open spec fn frame_bytes(s: StreamType, body: Seq<u8>) -> Seq<u8> {
    seq![stream_byte(s)] + body
}

proof fn lemma_u64_le_injective(a: u64, b: u64)
    requires
        u64_le_bytes(a) == u64_le_bytes(b),
    ensures
        a == b,
{
    assert(u64_le_bytes(a)[0] == u64_le_bytes(b)[0]);
    assert(u64_le_bytes(a)[1] == u64_le_bytes(b)[1]);
    assert(u64_le_bytes(a)[2] == u64_le_bytes(b)[2]);
    assert(u64_le_bytes(a)[3] == u64_le_bytes(b)[3]);
    assert(u64_le_bytes(a)[4] == u64_le_bytes(b)[4]);
    assert(u64_le_bytes(a)[5] == u64_le_bytes(b)[5]);
    assert(u64_le_bytes(a)[6] == u64_le_bytes(b)[6]);
    assert(u64_le_bytes(a)[7] == u64_le_bytes(b)[7]);
    assert(a == b) by (bit_vector)
        requires
            (a & 0xff) as u8 == (b & 0xff) as u8,
            ((a >> 8u64) & 0xff) as u8 == ((b >> 8u64) & 0xff) as u8,
            ((a >> 16u64) & 0xff) as u8 == ((b >> 16u64) & 0xff) as u8,
            ((a >> 24u64) & 0xff) as u8 == ((b >> 24u64) & 0xff) as u8,
            ((a >> 32u64) & 0xff) as u8 == ((b >> 32u64) & 0xff) as u8,
            ((a >> 40u64) & 0xff) as u8 == ((b >> 40u64) & 0xff) as u8,
            ((a >> 48u64) & 0xff) as u8 == ((b >> 48u64) & 0xff) as u8,
            ((a >> 56u64) & 0xff) as u8 == ((b >> 56u64) & 0xff) as u8,
    ;
}

/// Where each part of an encoded envelope lies.
pub proof fn lemma_envelope_layout(h: MessageHeader, p: Option<Seq<u8>>, sg: Seq<u8>)
    ensures
        ({
            let e = envelope_bytes(h, p, sg);
            let q: int = match p {
                None => 69,
                Some(pp) => 77 + pp.len() as int,
            };
            &&& e.len() == q + 8 + sg.len()
            &&& e[0] == h.version
            &&& e.subrange(1, 33) == h.topic.id@
            &&& e.subrange(33, 65) == h.msg_id@
            &&& e[65] == kind_byte(h.kind)
            &&& e[66] == h.hop
            &&& e[67] == h.ttl
            &&& e[68] == if p is Some { 1u8 } else { 0u8 }
            &&& p matches Some(pp) ==> e.subrange(69, 77) == u64_le_bytes(pp.len() as u64) && e.subrange(77, 77 + pp.len() as int) == pp
            &&& e.subrange(q, q + 8) == u64_le_bytes(sg.len() as u64)
            &&& e.subrange(q + 8, e.len() as int) == sg
        }),
{
    let e = envelope_bytes(h, p, sg);
    let hb = header_bytes(h);
    assert(hb.len() == 68);
    assert(e[0] == hb[0]);
    assert(e.subrange(1, 33) =~= h.topic.id@);
    assert(e.subrange(33, 65) =~= h.msg_id@);
    assert(e[65] == hb[65]);
    assert(e[66] == hb[66]);
    assert(e[67] == hb[67]);
    match p {
        None => {
            assert(e[68] == 0u8);
            assert(e.subrange(69, 77) =~= u64_le_bytes(sg.len() as u64));
            assert(e.subrange(77, e.len() as int) =~= sg);
        },
        Some(pp) => {
            assert(e[68] == 1u8);
            assert(e.subrange(69, 77) =~= u64_le_bytes(pp.len() as u64));
            assert(e.subrange(77, 77 + pp.len() as int) =~= pp);
            let q: int = 77 + pp.len() as int;
            assert(e.subrange(q, q + 8) =~= u64_le_bytes(sg.len() as u64));
            assert(e.subrange(q + 8, e.len() as int) =~= sg);
        },
    }
}

/// An envelope's bytes determine its header, payload and signature, so decoding
/// what was encoded gives back the same message.
pub proof fn lemma_envelope_injective(
    h1: MessageHeader,
    p1: Option<Seq<u8>>,
    s1: Seq<u8>,
    h2: MessageHeader,
    p2: Option<Seq<u8>>,
    s2: Seq<u8>,
)
    requires
        envelope_bytes(h1, p1, s1) == envelope_bytes(h2, p2, s2),
        envelope_bytes(h1, p1, s1).len() <= u64::MAX,
    ensures
        h1 == h2,
        p1 == p2,
        s1 == s2,
{
    let e = envelope_bytes(h1, p1, s1);
    lemma_envelope_layout(h1, p1, s1);
    lemma_envelope_layout(h2, p2, s2);
    assert(h1.topic.id =~= h2.topic.id) by {
        assert(h1.topic.id@ == h2.topic.id@);
        assert forall|i: int| 0 <= i < 32 implies h1.topic.id[i] == h2.topic.id[i] by {
            assert(h1.topic.id@[i] == h2.topic.id@[i]);
        }
    }
    assert(h1.msg_id =~= h2.msg_id) by {
        assert(h1.msg_id@ == h2.msg_id@);
        assert forall|i: int| 0 <= i < 32 implies h1.msg_id[i] == h2.msg_id[i] by {
            assert(h1.msg_id@[i] == h2.msg_id@[i]);
        }
    }
    crate::types::lemma_kind_byte_injective(h1.kind, h2.kind);
    match (p1, p2) {
        (Some(a), Some(b)) => {
            lemma_u64_le_injective(a.len() as u64, b.len() as u64);
        },
        _ => {},
    }
}

pub(crate) fn push_u64_le(out: &mut Vec<u8>, x: u64)
    ensures
        final(out)@ == old(out)@ + u64_le_bytes(x),
{
    out.push((x & 0xff) as u8);
    out.push(((x >> 8u64) & 0xff) as u8);
    out.push(((x >> 16u64) & 0xff) as u8);
    out.push(((x >> 24u64) & 0xff) as u8);
    out.push(((x >> 32u64) & 0xff) as u8);
    out.push(((x >> 40u64) & 0xff) as u8);
    out.push(((x >> 48u64) & 0xff) as u8);
    out.push(((x >> 56u64) & 0xff) as u8);
    assert(final(out)@ =~= old(out)@ + u64_le_bytes(x));
}

pub(crate) fn push_bytes(out: &mut Vec<u8>, b: &[u8])
    ensures
        final(out)@ == old(out)@ + b@,
{
    let ghost o0 = out@;
    let mut i: usize = 0;
    while i < b.len()
        invariant
            0 <= i <= b@.len(),
            out@ == o0 + b@.take(i as int),
        decreases b@.len() - i,
    {
        out.push(b[i]);
        assert(b@.take(i + 1) =~= b@.take(i as int).push(b@[i as int]));
        i = i + 1;
    }
    assert(b@.take(b@.len() as int) =~= b@);
}

/// Encodes `m`'s envelope.
pub fn encode_message(m: &GossipMessage) -> (r: Vec<u8>)
    ensures
        r@ == envelope_bytes(m.header, payload_view(*m), m.signature@),
{
    let h = m.header;
    let mut out: Vec<u8> = Vec::new();
    out.push(h.version);
    push_bytes(&mut out, &h.topic.id);
    push_bytes(&mut out, &h.msg_id);
    out.push(h.kind.to_byte());
    out.push(h.hop);
    out.push(h.ttl);
    assert(out@ =~= header_bytes(h));
    let ghost hb = out@;
    match &m.payload {
        None => {
            out.push(0u8);
            assert(out@ =~= hb + seq![0u8]);
        },
        Some(p) => {
            out.push(1u8);
            push_u64_le(&mut out, p.len() as u64);
            push_bytes(&mut out, p.as_slice());
            assert(out@ =~= hb + (seq![1u8] + prefixed(p@)));
        },
    }
    let ghost pb = out@;
    push_u64_le(&mut out, m.signature.len() as u64);
    push_bytes(&mut out, m.signature.as_slice());
    assert(out@ =~= pb + prefixed(m.signature@));
    out
}

fn read_u64_le(b: &[u8], pos: usize) -> (r: u64)
    requires
        pos + 8 <= b@.len(),
    ensures
        u64_le_bytes(r) == b@.subrange(pos as int, pos + 8),
{
    let b0 = b[pos] as u64;
    let b1 = b[pos + 1] as u64;
    let b2 = b[pos + 2] as u64;
    let b3 = b[pos + 3] as u64;
    let b4 = b[pos + 4] as u64;
    let b5 = b[pos + 5] as u64;
    let b6 = b[pos + 6] as u64;
    let b7 = b[pos + 7] as u64;
    let r = b0 | (b1 << 8u64) | (b2 << 16u64) | (b3 << 24u64) | (b4 << 32u64) | (b5 << 40u64) | (b6 << 48u64)
        | (b7 << 56u64);
    assert((r & 0xff) as u8 == b0 as u8 && ((r >> 8u64) & 0xff) as u8 == b1 as u8 && ((r >> 16u64) & 0xff) as u8
        == b2 as u8 && ((r >> 24u64) & 0xff) as u8 == b3 as u8 && ((r >> 32u64) & 0xff) as u8 == b4 as u8 && ((r
        >> 40u64) & 0xff) as u8 == b5 as u8 && ((r >> 48u64) & 0xff) as u8 == b6 as u8 && ((r >> 56u64) & 0xff)
        as u8 == b7 as u8) by (bit_vector)
        requires
            b0 < 256 && b1 < 256 && b2 < 256 && b3 < 256 && b4 < 256 && b5 < 256 && b6 < 256 && b7 < 256,
            r == b0 | (b1 << 8u64) | (b2 << 16u64) | (b3 << 24u64) | (b4 << 32u64) | (b5 << 40u64) | (b6
                << 48u64) | (b7 << 56u64),
    ;
    assert(u64_le_bytes(r) =~= b@.subrange(pos as int, pos + 8));
    r
}

fn copy_range(b: &[u8], start: usize, end: usize) -> (r: Vec<u8>)
    requires
        start <= end <= b@.len(),
    ensures
        r@ == b@.subrange(start as int, end as int),
{
    let mut r: Vec<u8> = Vec::new();
    let mut i: usize = start;
    while i < end
        invariant
            start <= i <= end,
            end <= b@.len(),
            r@ == b@.subrange(start as int, i as int),
        decreases end - i,
    {
        r.push(b[i]);
        assert(b@.subrange(start as int, i + 1) =~= b@.subrange(start as int, i as int).push(b@[i as int]));
        i = i + 1;
    }
    r
}

fn copy_id(b: &[u8], start: usize) -> (r: [u8; 32])
    requires
        start + 32 <= b@.len(),
    ensures
        r@ == b@.subrange(start as int, start + 32),
{
    let mut r: [u8; 32] = [0u8; 32];
    let n = b.len();
    let mut i: usize = 0;
    while i < 32
        invariant
            n == b@.len(),
            start + 32 <= b@.len(),
            0 <= i <= 32,
            forall|k: int| 0 <= k < i ==> r@[k] == b@[start + k],
        decreases 32 - i,
    {
        r[i] = b[start + i];
        i = i + 1;
    }
    assert(r@ =~= b@.subrange(start as int, start + 32));
    r
}

/// Decodes an envelope: `Some` exactly when `bytes` is the encoding of one.
pub fn decode_message(bytes: &[u8]) -> (r: Option<GossipMessage>)
    ensures
        match r {
            Some(m) => envelope_bytes(m.header, payload_view(m), m.signature@) == bytes@,
            None => forall|h: MessageHeader, p: Option<Seq<u8>>, sg: Seq<u8>|
                #[trigger] envelope_bytes(h, p, sg) != bytes@,
        },
{
    let n = bytes.len();
    if n < HEADER_LEN + 9 {
        proof {
            assert forall|h: MessageHeader, p: Option<Seq<u8>>, sg: Seq<u8>| #[trigger] envelope_bytes(h, p, sg) != bytes@ by {
                lemma_envelope_layout(h, p, sg);
            }
        }
        return None;
    }
    let kind = match MessageKind::from_byte(bytes[65]) {
        Some(k) => k,
        None => {
            proof {
                assert forall|h: MessageHeader, p: Option<Seq<u8>>, sg: Seq<u8>| #[trigger] envelope_bytes(h, p, sg) != bytes@ by {
                    lemma_envelope_layout(h, p, sg);
                }
            }
            return None;
        },
    };
    let header = MessageHeader {
        version: bytes[0],
        topic: TopicId::new(copy_id(bytes, 1)),
        msg_id: copy_id(bytes, 33),
        kind,
        hop: bytes[66],
        ttl: bytes[67],
    };
    assert(bytes@.subrange(0, 68) =~= header_bytes(header));
    let tag = bytes[68];
    if tag > 1 {
        proof {
            assert forall|h: MessageHeader, p: Option<Seq<u8>>, sg: Seq<u8>| #[trigger] envelope_bytes(h, p, sg) != bytes@ by {
                lemma_envelope_layout(h, p, sg);
            }
        }
        return None;
    }
    let mut pos: usize = 69;
    let mut payload: Option<Vec<u8>> = None;
    let ghost mut plen: u64 = 0;
    if tag == 1 {
        let len = read_u64_le(bytes, 69);
        proof {
            plen = len;
        }
        if ((n - 77) as u64) < len || n - 77 - (len as usize) < 8 {
            proof {
                assert forall|h: MessageHeader, p: Option<Seq<u8>>, sg: Seq<u8>| #[trigger] envelope_bytes(h, p, sg) != bytes@ by {
                    if envelope_bytes(h, p, sg) == bytes@ {
                        lemma_envelope_layout(h, p, sg);
                        let pp = p->Some_0;
                        lemma_u64_le_injective(len, pp.len() as u64);
                    }
                }
            }
            return None;
        }
        let l = len as usize;
        payload = Some(copy_range(bytes, 77, 77 + l));
        pos = 77 + l;
    }
    let slen = read_u64_le(bytes, pos);
    if ((n - pos - 8) as u64) != slen {
        proof {
            assert forall|h: MessageHeader, p: Option<Seq<u8>>, sg: Seq<u8>| #[trigger] envelope_bytes(h, p, sg) != bytes@ by {
                if envelope_bytes(h, p, sg) == bytes@ {
                    lemma_envelope_layout(h, p, sg);
                    if tag == 1 {
                        let pp = p->Some_0;
                        lemma_u64_le_injective(plen, pp.len() as u64);
                        assert(pos == 77 + pp.len());
                    } else {
                        assert(p is None);
                        assert(pos == 69);
                    }
                    lemma_u64_le_injective(slen, sg.len() as u64);
                }
            }
        }
        return None;
    }
    let signature = copy_range(bytes, pos + 8, n);
    let m = GossipMessage { header, payload, signature };
    proof {
        let e = envelope_bytes(m.header, payload_view(m), m.signature@);
        lemma_envelope_layout(m.header, payload_view(m), m.signature@);
        assert(e =~= bytes@) by {
            assert(e.subrange(0, 68) =~= bytes@.subrange(0, 68));
            assert forall|i: int| 0 <= i < e.len() implies e[i] == bytes@[i] by {
                if i < 68 {
                    assert(e[i] == e.subrange(0, 68)[i]);
                    assert(bytes@[i] == bytes@.subrange(0, 68)[i]);
                } else if i == 68 {
                } else if i < 77 && tag == 1 {
                    assert(e[i] == e.subrange(69, 77)[i - 69]);
                    assert(bytes@[i] == bytes@.subrange(69, 77)[i - 69]);
                } else if i < pos && tag == 1 {
                    assert(e[i] == e.subrange(77, pos as int)[i - 77]);
                    assert(bytes@[i] == bytes@.subrange(77, pos as int)[i - 77]);
                } else if i < pos + 8 {
                    assert(e[i] == e.subrange(pos as int, pos + 8)[i - pos]);
                    assert(bytes@[i] == bytes@.subrange(pos as int, pos + 8)[i - pos]);
                } else {
                    assert(e[i] == e.subrange(pos + 8, e.len() as int)[i - pos - 8]);
                    assert(bytes@[i] == bytes@.subrange(pos + 8, n as int)[i - pos - 8]);
                }
            }
        }
    }
    Some(m)
}

/// A frame of `body` on `stream`.
pub fn frame(stream: StreamType, body: &Vec<u8>) -> (r: Vec<u8>)
    ensures
        r@ == frame_bytes(stream, body@),
{
    let mut out: Vec<u8> = Vec::new();
    out.push(stream.to_byte());
    push_bytes(&mut out, body.as_slice());
    assert(out@ =~= frame_bytes(stream, body@));
    out
}

/// Splits a frame into its stream and body: `Some` exactly when `bytes` is a frame.
pub fn unframe(bytes: &[u8]) -> (r: Option<(StreamType, Vec<u8>)>)
    ensures
        match r {
            Some((s, b)) => frame_bytes(s, b@) == bytes@,
            None => forall|s: StreamType, b: Seq<u8>| #[trigger] frame_bytes(s, b) != bytes@,
        },
{
    if bytes.len() == 0 {
        proof {
            assert forall|s: StreamType, b: Seq<u8>| #[trigger] frame_bytes(s, b) != bytes@ by {
                assert(frame_bytes(s, b).len() >= 1);
            }
        }
        return None;
    }
    match StreamType::from_byte(bytes[0]) {
        Some(s) => {
            let body = copy_range(bytes, 1, bytes.len());
            assert(frame_bytes(s, body@) =~= bytes@);
            Some((s, body))
        },
        None => {
            proof {
                assert forall|s: StreamType, b: Seq<u8>| #[trigger] frame_bytes(s, b) != bytes@ by {
                    assert(frame_bytes(s, b)[0] == stream_byte(s));
                }
            }
            None
        },
    }
}

/// A frame's bytes determine its stream and body.
pub proof fn lemma_frame_injective(s1: StreamType, b1: Seq<u8>, s2: StreamType, b2: Seq<u8>)
    requires
        frame_bytes(s1, b1) == frame_bytes(s2, b2),
    ensures
        s1 == s2,
        b1 == b2,
{
    assert(frame_bytes(s1, b1)[0] == stream_byte(s1));
    assert(frame_bytes(s2, b2)[0] == stream_byte(s2));
    assert(b1 =~= frame_bytes(s1, b1).subrange(1, frame_bytes(s1, b1).len() as int));
    assert(b2 =~= frame_bytes(s2, b2).subrange(1, frame_bytes(s2, b2).len() as int));
}

/// The bytes of a list of 32-byte ids, one after the other.
pub open spec fn ids_concat(ids: Seq<[u8; 32]>) -> Seq<u8>
    decreases ids.len(),
{
    if ids.len() == 0 {
        Seq::empty()
    } else {
        ids_concat(ids.drop_last()) + ids.last()@
    }
}

/// A list of ids in a payload: the count as a little-endian u64, then the ids.
pub open spec fn id_list_bytes(ids: Seq<[u8; 32]>) -> Seq<u8> {
    u64_le_bytes(ids.len() as u64) + ids_concat(ids)
}

proof fn lemma_ids_concat_len(ids: Seq<[u8; 32]>)
    ensures
        ids_concat(ids).len() == 32 * ids.len(),
    decreases ids.len(),
{
    if ids.len() > 0 {
        lemma_ids_concat_len(ids.drop_last());
    }
}

proof fn lemma_ids_concat_at(ids: Seq<[u8; 32]>, k: int)
    requires
        0 <= k < ids.len(),
    ensures
        ids_concat(ids).len() == 32 * ids.len(),
        ids_concat(ids).subrange(32 * k, 32 * k + 32) == ids[k]@,
    decreases ids.len(),
{
    lemma_ids_concat_len(ids);
    let prev = ids.drop_last();
    lemma_ids_concat_len(prev);
    if k < ids.len() - 1 {
        lemma_ids_concat_at(prev, k);
        assert(ids_concat(ids).subrange(32 * k, 32 * k + 32) =~= ids_concat(prev).subrange(32 * k, 32 * k + 32));
    } else {
        assert(ids_concat(ids).subrange(32 * k, 32 * k + 32) =~= ids.last()@);
    }
}

/// Encodes a list of ids.
pub fn encode_id_list(ids: &Vec<[u8; 32]>) -> (r: Vec<u8>)
    ensures
        r@ == id_list_bytes(ids@),
{
    let mut out: Vec<u8> = Vec::new();
    push_u64_le(&mut out, ids.len() as u64);
    let ghost start = out@;
    let mut i: usize = 0;
    while i < ids.len()
        invariant
            0 <= i <= ids@.len(),
            out@ == start + ids_concat(ids@.take(i as int)),
        decreases ids@.len() - i,
    {
        let id = ids[i];
        push_bytes(&mut out, &id);
        assert(ids@.take(i + 1).drop_last() =~= ids@.take(i as int));
        assert(out@ =~= start + ids_concat(ids@.take(i + 1)));
        i = i + 1;
    }
    assert(ids@.take(ids@.len() as int) =~= ids@);
    out
}

/// Decodes a list of ids: `Some` exactly when `bytes` is the encoding of one.
pub fn decode_id_list(bytes: &[u8]) -> (r: Option<Vec<[u8; 32]>>)
    ensures
        match r {
            Some(ids) => id_list_bytes(ids@) == bytes@,
            None => forall|ids: Seq<[u8; 32]>| #[trigger] id_list_bytes(ids) != bytes@,
        },
{
    let n = bytes.len();
    if n < 8 {
        proof {
            assert forall|ids: Seq<[u8; 32]>| #[trigger] id_list_bytes(ids) != bytes@ by {
                assert(id_list_bytes(ids).len() >= 8);
            }
        }
        return None;
    }
    let count = read_u64_le(bytes, 0);
    let rest = n - 8;
    if rest % 32 != 0 || ((rest / 32) as u64) != count {
        proof {
            assert forall|ids: Seq<[u8; 32]>| #[trigger] id_list_bytes(ids) != bytes@ by {
                if id_list_bytes(ids) == bytes@ {
                    lemma_ids_concat_len(ids);
                    assert(id_list_bytes(ids).subrange(0, 8) =~= u64_le_bytes(ids.len() as u64));
                    lemma_u64_le_injective(count, ids.len() as u64);
                }
            }
        }
        return None;
    }
    let k = rest / 32;
    let mut ids: Vec<[u8; 32]> = Vec::new();
    let mut i: usize = 0;
    while i < k
        invariant
            n == bytes@.len(),
            k * 32 + 8 == n,
            0 <= i <= k,
            ids@.len() == i,
            ids_concat(ids@) == bytes@.subrange(8, 8 + 32 * i),
        decreases k - i,
    {
        let id = copy_id(bytes, 8 + 32 * i);
        let ghost before = ids@;
        ids.push(id);
        proof {
            assert(ids@.drop_last() =~= before);
            assert(ids_concat(ids@) =~= bytes@.subrange(8, 8 + 32 * (i + 1)));
        }
        i = i + 1;
    }
    assert(id_list_bytes(ids@) =~= bytes@);
    Some(ids)
}

/// A payload's bytes determine the list of ids it carries.
pub proof fn lemma_id_list_injective(a: Seq<[u8; 32]>, b: Seq<[u8; 32]>)
    requires
        id_list_bytes(a) == id_list_bytes(b),
        a.len() <= u64::MAX,
        b.len() <= u64::MAX,
    ensures
        a == b,
{
    assert(id_list_bytes(a).subrange(0, 8) =~= u64_le_bytes(a.len() as u64));
    assert(id_list_bytes(b).subrange(0, 8) =~= u64_le_bytes(b.len() as u64));
    lemma_u64_le_injective(a.len() as u64, b.len() as u64);
    assert forall|k: int| 0 <= k < a.len() implies a[k] == b[k] by {
        lemma_ids_concat_at(a, k);
        lemma_ids_concat_at(b, k);
        assert(ids_concat(a) =~= id_list_bytes(a).subrange(8, id_list_bytes(a).len() as int));
        assert(ids_concat(b) =~= id_list_bytes(b).subrange(8, id_list_bytes(b).len() as int));
        assert(a[k]@ == b[k]@);
        assert(a[k] =~= b[k]) by {
            assert forall|j: int| 0 <= j < 32 implies a[k][j] == b[k][j] by {
                assert(a[k]@[j] == b[k]@[j]);
            }
        }
    }
    assert(a =~= b);
}

} // verus!
